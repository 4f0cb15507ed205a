use vstd::prelude::*;
use crate::config::{Args, Tree};
use crate::entry::{Entry, EntryKind};
use crate::order::{before, indexes, lemma_reverse_order, sort_indices, sorted_by, Order};
use crate::text::{
    contains, decimal, has_substring, human_size, human_text, lower_of, lowercase, paint_blue,
    paint_cyan, paint_green_bold, paint_red_bold, styled, to_decimal,
};

verus! {

/// The order that the options `a` ask for.
pub open spec fn order_of(a: Args) -> Order {
    Order { dirsfirst: a.dirsfirst, key: a.sort, reverse: a.reverse }
}

/// Whether the name `name` holds the pattern `pat` under the case rule of `a`.
pub open spec fn pattern_hit(a: Args, name: Seq<char>, pat: Seq<char>) -> bool {
    if a.ignore_case {
        has_substring(lower_of(name), lower_of(pat))
    } else {
        has_substring(name, pat)
    }
}

/// The pattern rule: a directory passes unless patterns apply to
/// directories too; otherwise an exclude pattern, when given, must not occur
/// in the name, and else an include pattern, when given, must.
pub open spec fn pattern_passes(a: Args, e: Entry) -> bool {
    if e.is_dir() && !a.matchdirs {
        true
    } else {
        match a.ignore {
            Some(p) => !pattern_hit(a, e.name@, p@),
            None => match a.pattern {
                Some(p) => pattern_hit(a, e.name@, p@),
                None => true,
            },
        }
    }
}

/// Whether the entry `e` is listed under the options `a`.
pub open spec fn survives(a: Args, e: Entry) -> bool {
    &&& a.all || !e.is_hidden()
    &&& !a.directories || e.is_dir()
    &&& pattern_passes(a, e)
}

/// The size field under the options `a`.
pub open spec fn size_text(a: Args, n: u64) -> Seq<char> {
    if a.human_size { human_text(n as nat) } else { decimal(n as nat) }
}

/// The name shown for `e`: base name or full path, quoted if asked for.
pub open spec fn label(a: Args, e: Entry) -> Seq<char> {
    let n = if a.full_path { e.path@ } else { e.name@ };
    if a.quote { seq!['"'] + n + seq!['"'] } else { n }
}

/// Whether the size field is shown.
pub open spec fn shows_size(a: Args) -> bool {
    a.size || a.human_size
}

/// Whether `e` can be rendered: a link's target and, where sizes are shown,
/// the size could be read.
pub open spec fn renderable(a: Args, e: Entry) -> bool {
    &&& e.kind == EntryKind::Symlink ==> e.link_target.is_some()
    &&& shows_size(a) ==> e.size.is_some()
}

/// `body` with the size field in front of it where sizes are shown.
pub open spec fn decorate(a: Args, e: Entry, body: Seq<char>) -> Seq<char> {
    if shows_size(a) {
        seq!['['] + size_text(a, e.size.unwrap()) + seq![']', ' '] + body
    } else {
        body
    }
}

/// The rendering of a renderable `e` without colors.
pub open spec fn plain_body(a: Args, e: Entry) -> Seq<char> {
    if e.kind == EntryKind::Symlink {
        label(a, e) + seq![' ', '-', '>', ' '] + e.link_target.unwrap()@
    } else {
        label(a, e)
    }
}

/// `b` is a colored rendering of `e`: a link shows its name and target
/// each styled, a directory or an executable file its styled name, and any
/// other entry its plain name.
pub open spec fn colored_body(a: Args, e: Entry, b: Seq<char>) -> bool {
    if e.kind == EntryKind::Symlink {
        exists|p: Seq<char>, q: Seq<char>|
            #![trigger styled(p, label(a, e)), styled(q, e.link_target.unwrap()@)]
            b == p + seq![' ', '-', '>', ' '] + q && styled(p, label(a, e)) && styled(q, e.link_target.unwrap()@)
    } else if e.kind == EntryKind::Dir || e.executable {
        styled(b, label(a, e))
    } else {
        b == label(a, e)
    }
}

/// `f` is a rendering of `e` under `a`: exactly [`plain_body`] decorated
/// when colors are off.
pub open spec fn shows(a: Args, e: Entry, f: Seq<char>) -> bool {
    if a.color {
        exists|b: Seq<char>| #[trigger] colored_body(a, e, b) && f == decorate(a, e, b)
    } else {
        f == decorate(a, e, plain_body(a, e))
    }
}

/// The branch drawn before an entry.
pub open spec fn branch(last: bool) -> Seq<char> {
    if last { seq!['└', '─', '─', ' '] } else { seq!['├', '─', '─', ' '] }
}

/// What an entry adds to the prefix of its children.
pub open spec fn continuation(last: bool) -> Seq<char> {
    if last { seq![' ', ' ', ' ', ' '] } else { seq!['│', ' ', ' ', ' '] }
}

/// Whether the walk goes on into `e`: a directory, or a link when links
/// are followed.
pub open spec fn descends(a: Args, e: Entry) -> bool {
    e.kind == EntryKind::Dir || (e.kind == EntryKind::Symlink && a.follow_links)
}

/// Whether a directory at `depth` lists its children.
pub open spec fn within_level(a: Args, depth: nat) -> bool {
    match a.level {
        Some(l) => depth < l,
        None => true,
    }
}

/// How many of the first `n` entries of `es` are listed.
pub open spec fn survivor_count(a: Args, es: Seq<Entry>, n: nat) -> nat
    decreases n,
{
    if n == 0 {
        0
    } else {
        survivor_count(a, es, (n - 1) as nat) + if survives(a, es[n - 1]) { 1nat } else { 0nat }
    }
}

/// The entries that `r` lists, in its order.
pub open spec fn entries_of(r: Seq<Step>) -> Seq<usize> {
    r.map_values(|s: Step| s.entry)
}

/// `s` is the step for entry `s.entry` of `es` under the prefix `prefix`,
/// `last` telling whether it is the last listed child.
pub open spec fn step_for(a: Args, es: Seq<Entry>, prefix: Seq<char>, s: Step, last: bool) -> bool {
    let e = es[s.entry as int];
    let head = prefix + branch(last);
    &&& s.entry < es.len()
    &&& s.descend == descends(a, e)
    &&& s.child_prefix@ == prefix + continuation(last)
    &&& s.line.is_some() <==> renderable(a, e)
    &&& s.line.is_some() ==> {
        let l = s.line.unwrap()@;
        l.len() >= head.len() && l.subrange(0, head.len() as int) == head && shows(a, e, l.skip(head.len() as int))
    }
}

/// `r` lists the entries of `es` that survive the filters of `a`, each
/// once, in the order that `a` asks for.
pub open spec fn lists(a: Args, es: Seq<Entry>, r: Seq<Step>) -> bool {
    &&& r.len() == survivor_count(a, es, es.len())
    &&& entries_of(r).no_duplicates()
    &&& forall|i: usize| #[trigger] entries_of(r).contains(i) <==> (i < es.len() && survives(a, es[i as int]))
    &&& sorted_by(es, order_of(a), entries_of(r))
}

/// Options that agree on the filters list the same number of entries.
proof fn lemma_same_count(a1: Args, a2: Args, es: Seq<Entry>, n: nat)
    requires
        n <= es.len(),
        forall|i: int| 0 <= i < n ==> survives(a1, #[trigger] es[i]) == survives(a2, es[i]),
    ensures
        survivor_count(a1, es, n) == survivor_count(a2, es, n),
    decreases n,
{
    if n > 0 {
        lemma_same_count(a1, a2, es, (n - 1) as nat);
    }
}

/// With a sort key, reversing the order lists the same children in exactly
/// the opposite order: for options `fa` and `ra` that differ in `reverse`
/// alone as far as the listing reads them, `rev` is `fwd` backwards
/// whenever both satisfy [`Tree::visit`]'s listing contract.
pub proof fn lemma_reverse_listing(fa: Args, ra: Args, es: Seq<Entry>, fwd: Seq<Step>, rev: Seq<Step>)
    requires
        fa.sort.is_some(),
        !fa.reverse,
        ra.reverse,
        ra.sort == fa.sort,
        ra.dirsfirst == fa.dirsfirst,
        ra.all == fa.all,
        ra.directories == fa.directories,
        ra.matchdirs == fa.matchdirs,
        ra.ignore_case == fa.ignore_case,
        ra.pattern == fa.pattern,
        ra.ignore == fa.ignore,
        lists(fa, es, fwd),
        lists(ra, es, rev),
    ensures
        entries_of(rev) == entries_of(fwd).reverse(),
{
    let c = entries_of(fwd);
    let d = entries_of(rev);
    assert forall|i: int| 0 <= i < es.len() implies survives(fa, #[trigger] es[i]) == survives(ra, es[i]) by {}
    lemma_same_count(fa, ra, es, es.len());
    assert forall|k: int| 0 <= k < c.len() implies #[trigger] c[k] < es.len() by {
        assert(c.contains(c[k]));
    }
    assert forall|x: usize| #[trigger] d.contains(x) <==> c.contains(x) by {
        if x < es.len() {
            assert(survives(fa, es[x as int]) == survives(ra, es[x as int]));
        }
    }
    assert(order_of(ra) == Order { reverse: true, ..order_of(fa) });
    assert(order_of(fa) == Order { reverse: false, ..order_of(fa) });
    lemma_reverse_order(es, order_of(fa), c, c, d);
}

/// One listed child of a directory.
pub struct Step {
    /// Its index among the children handed to [`Tree::visit`].
    pub entry: usize,
    /// The line to print; `None` where the entry could not be rendered.
    pub line: Option<String>,
    /// Whether to list its own children next.
    pub descend: bool,
    /// The prefix of the lines of its children.
    pub child_prefix: String,
}

impl Tree {
    /// The order that the options ask for.
    pub fn ordering(&self) -> (r: Order)
        ensures
            r == order_of(self.config),
    {
        Order { dirsfirst: self.config.dirsfirst, key: self.config.sort, reverse: self.config.reverse }
    }

    /// Whether a directory at `depth` lists its children under the depth
    /// limit.
    pub fn lists_at(&self, depth: usize) -> (r: bool)
        ensures
            r == within_level(self.config, depth as nat),
    {
        match self.config.level {
            Some(l) => depth < l,
            None => true,
        }
    }

    /// The pattern rule for `e`.
    pub fn is_match(&self, e: &Entry) -> (r: bool)
        ensures
            r == pattern_passes(self.config, *e),
    {
        if matches!(e.kind, EntryKind::Dir) && !self.config.matchdirs {
            return true;
        }
        let (pat, ignore) = match &self.config.ignore {
            Some(p) => (p, true),
            None => match &self.config.pattern {
                Some(p) => (p, false),
                None => {
                    return true;
                },
            },
        };
        let m = if self.config.ignore_case {
            let n = lowercase(e.name.as_str());
            let p = lowercase(pat.as_str());
            contains(n.as_str(), p.as_str())
        } else {
            contains(e.name.as_str(), pat.as_str())
        };
        m != ignore
    }

    /// Whether `e` is listed.
    pub fn survives(&self, e: &Entry) -> (r: bool)
        ensures
            r == survives(self.config, *e),
    {
        let name = e.name.as_str();
        let hidden = name.unicode_len() > 0 && name.get_char(0) == '.';
        if hidden && !self.config.all {
            return false;
        }
        if self.config.directories && !matches!(e.kind, EntryKind::Dir) {
            return false;
        }
        self.is_match(e)
    }

    /// The size field for `size` bytes: the raw count, or scaled by powers
    /// of 1024 when human-readable sizes are asked for.
    pub fn size_to_string(&self, size: u64) -> (r: String)
        ensures
            r@ == size_text(self.config, size),
    {
        if !self.config.human_size {
            to_decimal(size)
        } else {
            human_size(size)
        }
    }

    /// The text of `e`'s line after its branch: the name or path, quoted
    /// if asked for, a link's target after an arrow, colors if asked for,
    /// and the size field in front where sizes are shown. `None` where a
    /// link's target or a size that is shown could not be read.
    pub fn filename(&self, e: &Entry) -> (r: Option<String>)
        ensures
            r.is_some() <==> renderable(self.config, *e),
            r.is_some() ==> shows(self.config, *e, r.unwrap()@),
    {
        let ghost a = self.config;
        let base: &str = if self.config.full_path { e.path.as_str() } else { e.name.as_str() };
        let mut shown = String::new();
        proof {
            reveal_strlit("\"");
            reveal_strlit(" -> ");
            reveal_strlit("[");
            reveal_strlit("] ");
        }
        if self.config.quote {
            shown.append("\"");
            shown.append(base);
            shown.append("\"");
        } else {
            shown.append(base);
        }
        assert(shown@ =~= label(a, *e));
        let body: String = match e.kind {
            EntryKind::Symlink => {
                let target = match &e.link_target {
                    Some(t) => t,
                    None => {
                        return None;
                    },
                };
                if !self.config.color {
                    let mut b = shown;
                    b.append(" -> ");
                    b.append(target.as_str());
                    assert(b@ =~= plain_body(a, *e));
                    b
                } else {
                    let mut b = paint_blue(shown.as_str());
                    let ghost p = b@;
                    b.append(" -> ");
                    let q = paint_red_bold(target.as_str());
                    b.append(q.as_str());
                    assert(b@ =~= p + seq![' ', '-', '>', ' '] + q@);
                    assert(colored_body(a, *e, b@));
                    b
                }
            },
            _ => {
                if !self.config.color {
                    shown
                } else if matches!(e.kind, EntryKind::Dir) {
                    paint_cyan(shown.as_str())
                } else if e.executable {
                    paint_green_bold(shown.as_str())
                } else {
                    shown
                }
            },
        };
        assert(!a.color ==> body@ == plain_body(a, *e));
        assert(a.color ==> colored_body(a, *e, body@));
        if self.config.size || self.config.human_size {
            let n = match e.size {
                Some(n) => n,
                None => {
                    return None;
                },
            };
            let mut r = String::new();
            r.append("[");
            let st = self.size_to_string(n);
            r.append(st.as_str());
            r.append("] ");
            r.append(body.as_str());
            assert(r@ =~= decorate(a, *e, body@));
            Some(r)
        } else {
            Some(body)
        }
    }

    /// Lists the children `es` of a directory at `depth` whose lines start
    /// with `prefix`: the entries that survive the filters, each once, in
    /// the order asked for, each with its line, whether to descend into it,
    /// and the prefix of its children's lines. The last one is drawn with a
    /// corner, the others with a tee. Nothing is listed below the depth
    /// limit.
    pub fn visit(&self, es: &Vec<Entry>, depth: usize, prefix: &str) -> (r: Vec<Step>)
        ensures
            !within_level(self.config, depth as nat) ==> r@.len() == 0,
            within_level(self.config, depth as nat) ==> lists(self.config, es@, r@),
            forall|k: int| 0 <= k < r@.len() ==> step_for(self.config, es@, prefix@, #[trigger] r@[k], k == r@.len() - 1),
    {
        let ghost a = self.config;
        if !self.lists_at(depth) {
            return Vec::new();
        }
        let mut c: Vec<usize> = Vec::new();
        let mut i: usize = 0;
        while i < es.len()
            invariant
                a == self.config,
                i <= es@.len(),
                c@.len() == survivor_count(a, es@, i as nat),
                forall|p: int, q: int| 0 <= p < q < c@.len() ==> #[trigger] c@[p] < #[trigger] c@[q],
                forall|k: int| 0 <= k < c@.len() ==> #[trigger] c@[k] < i,
                forall|x: usize| #[trigger] c@.contains(x) <==> (x < i && survives(a, es@[x as int])),
            decreases es@.len() - i,
        {
            let ghost old_c = c@;
            let keep = self.survives(&es[i]);
            if keep {
                c.push(i);
            }
            assert(keep ==> c@ == old_c.push(i));
            assert(!keep ==> c@ == old_c);
            proof {
                assert forall|x: usize| #[trigger] c@.contains(x) <==> (x < i + 1 && survives(a, es@[x as int])) by {
                    if c@.contains(x) {
                        let k = choose|k: int| 0 <= k < c@.len() && #[trigger] c@[k] == x;
                        if k < old_c.len() {
                            assert(old_c[k] == x);
                            assert(old_c.contains(x));
                        } else {
                            assert(keep && x == i);
                        }
                    }
                    if x < i + 1 && survives(a, es@[x as int]) {
                        if x < i {
                            assert(old_c.contains(x));
                            let k = choose|k: int| 0 <= k < old_c.len() && #[trigger] old_c[k] == x;
                            assert(c@[k] == x);
                        } else {
                            assert(c@[c@.len() - 1] == x);
                        }
                    }
                }
            }
            i = i + 1;
        }
        assert(c@.no_duplicates());
        assert(indexes(es@, c@));
        let ord = sort_indices(es, self.ordering(), &c);
        proof {
            assert forall|x: usize| #[trigger] ord@.contains(x) ==> x < es@.len() by {
                if ord@.contains(x) {
                    assert(c@.contains(x));
                }
            }
            assert forall|k: int| 0 <= k < ord@.len() implies #[trigger] ord@[k] < es@.len() by {
                assert(ord@.contains(ord@[k]));
            }
        }
        let n = ord.len();
        let mut r: Vec<Step> = Vec::new();
        let mut k: usize = 0;
        while k < n
            invariant
                a == self.config,
                n == ord@.len(),
                k <= n,
                r@.len() == k,
                indexes(es@, ord@),
                forall|j: int| 0 <= j < k ==> (#[trigger] r@[j]).entry == ord@[j],
                forall|j: int| 0 <= j < k ==> step_for(a, es@, prefix@, #[trigger] r@[j], j == n - 1),
            decreases n - k,
        {
            let idx = ord[k];
            let e = &es[idx];
            let last = k + 1 == n;
            proof {
                reveal_strlit("└── ");
                reveal_strlit("├── ");
                reveal_strlit(" ");
                reveal_strlit("│");
                reveal_strlit("   ");
            }
            let line = match self.filename(e) {
                Some(f) => {
                    let mut l = String::new();
                    l.append(prefix);
                    l.append(if last { "└── " } else { "├── " });
                    let ghost head = l@;
                    l.append(f.as_str());
                    assert(head =~= prefix@ + branch(last));
                    assert(l@.subrange(0, head.len() as int) =~= head);
                    assert(l@.skip(head.len() as int) =~= f@);
                    Some(l)
                },
                None => None,
            };
            let mut cp = String::new();
            cp.append(prefix);
            cp.append(if last { " " } else { "│" });
            cp.append("   ");
            assert(cp@ =~= prefix@ + continuation(last));
            let descend = matches!(e.kind, EntryKind::Dir) || (matches!(e.kind, EntryKind::Symlink) && self.config.follow_links);
            r.push(Step { entry: idx, line, descend, child_prefix: cp });
            k = k + 1;
        }
        proof {
            assert(entries_of(r@) =~= ord@);
            assert(c@.len() == survivor_count(a, es@, es@.len()));
            assert forall|p: int, q: int| 0 <= p < q < ord@.len() implies ord@[p] != ord@[q] by {
                assert(before(es@, order_of(a), ord@[p] as int, ord@[q] as int));
                crate::order::lemma_before_order(es@, order_of(a), ord@[p] as int, ord@[p] as int, ord@[p] as int);
            }
        }
        r
    }

    /// The first line of the listing, for the root entry `root`; `named`
    /// tells whether the root path has a base name. Where the root cannot
    /// be rendered, the root path `.` is shown as it is.
    pub fn heading(&self, root: &Entry, named: bool) -> (r: Option<String>)
        ensures
            (named || self.config.full_path) && renderable(self.config, *root) ==> r.is_some() && shows(self.config, *root, r.unwrap()@),
            !((named || self.config.full_path) && renderable(self.config, *root)) ==> {
                &&& r.is_some() <==> self.config.path@ == seq!['.']
                &&& r.is_some() ==> r.unwrap()@ == seq!['.']
            },
    {
        if named || self.config.full_path {
            if let Some(f) = self.filename(root) {
                return Some(f);
            }
        }
        let p = self.config.path.as_str();
        if p.unicode_len() == 1 && p.get_char(0) == '.' {
            assert(p@ =~= seq!['.']);
            proof {
                reveal_strlit(".");
            }
            Some(String::from_str("."))
        } else {
            None
        }
    }
}

} // verus!
