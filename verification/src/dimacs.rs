use vstd::prelude::*;
use crate::graph_source::{trim_start, spec_parse_usize, parse_usize_range, is_white_space, white_space, lemma_trim_start_at};
use crate::text::{chars_of, chars_to_string, utf8_text};
use vstd::utf8::{valid_utf8, decode_utf8};

verus! {

/// One arc of a DIMACS shortest-path file, with 0-based endpoints. The weight
/// is the text of the arc's third field, if the line has one; a field that
/// is missing or does not parse as a number stands for weight 1.
#[derive(Debug, Clone)]
pub struct GrEdge {
    pub source: usize,
    pub target: usize,
    pub weight: Option<String>,
}

/// An arc as read from a line: its endpoints as written (1- or 0-based) and
/// its weight field.
pub type RawArc = (usize, usize, Option<Seq<char>>);

/// An arc with 0-based endpoints.
pub type ArcModel = (usize, usize, Option<Seq<char>>);

/// What has been read of a DIMACS file so far.
#[verifier::ext_equal]
pub struct GrModel {
    /// Nodes created so far.
    pub node_count: nat,
    /// Node count of the last problem line that gave one.
    pub declared_n: Option<usize>,
    /// Whether node ids are 0-based (shift 0) or 1-based (shift 1), once known.
    pub shift: Option<usize>,
    /// Arcs read before the numbering was known.
    pub deferred: Seq<RawArc>,
    /// Arcs added so far, in order.
    pub edges: Seq<ArcModel>,
}

/// ASCII white space as `split_ascii_whitespace` knows it.
pub open spec fn is_ascii_ws(c: char) -> bool {
    c == ' ' || c == '\t' || c == '\n' || c == '\x0C' || c == '\r'
}

/// First position at or after `i` that is not ASCII white space.
pub open spec fn skip_ws(t: Seq<char>, i: int) -> int
    decreases t.len() - i,
{
    if 0 <= i < t.len() && is_ascii_ws(t[i]) {
        skip_ws(t, i + 1)
    } else {
        i
    }
}

/// First position at or after `i` that is ASCII white space, or the end.
pub open spec fn token_end(t: Seq<char>, i: int) -> int
    decreases t.len() - i,
{
    if 0 <= i < t.len() && !is_ascii_ws(t[i]) {
        token_end(t, i + 1)
    } else {
        i
    }
}

/// The white-space separated fields of `t` from position `i` on.
pub open spec fn tokens_from(t: Seq<char>, i: int) -> Seq<Seq<char>>
    decreases t.len() - i,
{
    let a = skip_ws(t, i);
    if 0 <= i && a < t.len() {
        let b = token_end(t, a);
        if i < b <= t.len() {
            seq![t.subrange(a, b)] + tokens_from(t, b)
        } else {
            seq![]
        }
    } else {
        seq![]
    }
}

/// Field `k` of `t`, if there is one.
pub open spec fn field(t: Seq<char>, k: int) -> Option<Seq<char>> {
    let f = tokens_from(t, 0);
    if 0 <= k < f.len() {
        Some(f[k])
    } else {
        None
    }
}

/// Field `k` of `t` as a `usize`, if it is there and parses.
pub open spec fn usize_field(t: Seq<char>, k: int) -> Option<usize> {
    match field(t, k) {
        Some(f) => spec_parse_usize(f),
        None => None,
    }
}

/// Adds one arc with the given numbering; arcs that mention a node below
/// the shift are dropped, and nodes are created up to the larger endpoint.
pub open spec fn push_arc(st: GrModel, arc: RawArc, shift: usize) -> GrModel {
    let (u, v, w) = arc;
    if u < shift || v < shift {
        st
    } else {
        let u0 = (u - shift) as usize;
        let v0 = (v - shift) as usize;
        let need = if u0 >= v0 { u0 + 1 } else { v0 + 1 };
        GrModel {
            node_count: if st.node_count < need { need as nat } else { st.node_count },
            edges: st.edges.push((u0, v0, w)),
            ..st
        }
    }
}

/// Adds the arcs in order.
pub open spec fn push_arcs(st: GrModel, arcs: Seq<RawArc>, shift: usize) -> GrModel
    decreases arcs.len(),
{
    if arcs.len() == 0 {
        st
    } else {
        push_arc(push_arcs(st, arcs.drop_last(), shift), arcs.last(), shift)
    }
}

/// The effect of one line. Comment lines, blank lines and lines of other
/// kinds change nothing. A problem line `p sp N M` records `N` and, if no
/// node exists yet, creates `N` nodes. An arc line `a U V W` (or `e U V W`)
/// is skipped unless `U` and `V` parse; while the numbering is unknown, an
/// arc that mentions node 0 settles it as 0-based, and otherwise arcs are
/// held back until four of them show that it is 1-based.
pub open spec fn step(st: GrModel, line: Seq<char>) -> GrModel {
    let t = trim_start(line);
    if t.len() == 0 {
        st
    } else if t[0] == 'p' {
        match usize_field(t, 2) {
            Some(n) => GrModel {
                declared_n: Some(n),
                node_count: if st.node_count == 0 { n as nat } else { st.node_count },
                ..st
            },
            None => st,
        }
    } else if t[0] == 'a' || t[0] == 'e' {
        match (usize_field(t, 1), usize_field(t, 2)) {
            (Some(u), Some(v)) => {
                let arc = (u, v, field(t, 3));
                match st.shift {
                    Some(s) => push_arc(st, arc, s),
                    None => if u == 0 || v == 0 {
                        let flushed = push_arcs(st, st.deferred, 0);
                        push_arc(GrModel { shift: Some(0usize), deferred: seq![], ..flushed }, arc, 0)
                    } else if st.deferred.len() + 1 < 4 {
                        GrModel { deferred: st.deferred.push(arc), ..st }
                    } else {
                        let flushed = push_arcs(st, st.deferred.push(arc), 1);
                        GrModel { shift: Some(1usize), deferred: seq![], ..flushed }
                    },
                }
            },
            _ => st,
        }
    } else {
        st
    }
}

/// The effect of a whole file, line by line.
pub open spec fn steps(st: GrModel, lines: Seq<Seq<char>>) -> GrModel
    decreases lines.len(),
{
    if lines.len() == 0 {
        st
    } else {
        step(steps(st, lines.drop_last()), lines.last())
    }
}

/// The empty state before the first line.
pub open spec fn initial_model() -> GrModel {
    GrModel { node_count: 0, declared_n: None, shift: None, deferred: seq![], edges: seq![] }
}

/// The graph at the end of the file: arcs still held back are added as
/// 1-based, and the node count is raised to the declared one.
pub open spec fn final_model(st: GrModel) -> (nat, Seq<ArcModel>) {
    let done = if st.deferred.len() > 0 {
        push_arcs(st, st.deferred, match st.shift { Some(s) => s, None => 1 })
    } else {
        st
    };
    let n = match done.declared_n {
        Some(d) => if done.node_count < d { d as nat } else { done.node_count },
        None => done.node_count,
    };
    (n, done.edges)
}


fn is_ascii_ws_exec(c: char) -> (b: bool)
    ensures
        b == is_ascii_ws(c),
{
    c == ' ' || c == '\t' || c == '\n' || c == '\x0C' || c == '\r'
}

proof fn lemma_skip_ws_bounds(t: Seq<char>, i: int)
    requires
        0 <= i <= t.len(),
    ensures
        i <= skip_ws(t, i) <= t.len(),
    decreases t.len() - i,
{
    if i < t.len() && is_ascii_ws(t[i]) {
        lemma_skip_ws_bounds(t, i + 1);
    }
}

/// The positions of the first four fields of `t` (fewer if it has fewer).
fn field_ranges(t: &Vec<char>) -> (r: Vec<(usize, usize)>)
    ensures
        r@.len() == if tokens_from(t@, 0).len() < 4 { tokens_from(t@, 0).len() } else { 4 },
        forall|k: int| 0 <= k < r@.len() ==> {
            &&& #[trigger] r@[k].0 <= r@[k].1 <= t@.len()
            &&& t@.subrange(r@[k].0 as int, r@[k].1 as int) == tokens_from(t@, 0)[k]
        },
{
    let ghost all = tokens_from(t@, 0);
    let ghost mut acc: Seq<Seq<char>> = seq![];
    let mut found: Vec<(usize, usize)> = Vec::new();
    let mut i: usize = 0;
    while found.len() < 4
        invariant
            i <= t@.len(),
            all == tokens_from(t@, 0),
            all == acc + tokens_from(t@, i as int),
            found@.len() == acc.len(),
            found@.len() <= 4,
            forall|k: int| 0 <= k < found@.len() ==> {
                &&& #[trigger] found@[k].0 <= found@[k].1 <= t@.len()
                &&& t@.subrange(found@[k].0 as int, found@[k].1 as int) == acc[k]
            },
        decreases 4 - found@.len(),
    {
        let mut a = i;
        while a < t.len() && is_ascii_ws_exec(t[a])
            invariant
                i <= a <= t@.len(),
                skip_ws(t@, i as int) == skip_ws(t@, a as int),
            decreases t@.len() - a,
        {
            a = a + 1;
        }
        if a >= t.len() {
            assert(tokens_from(t@, i as int) =~= seq![]);
            assert(all =~= acc);
            return found;
        }
        let mut b = a;
        while b < t.len() && !is_ascii_ws_exec(t[b])
            invariant
                a <= b <= t@.len(),
                token_end(t@, a as int) == token_end(t@, b as int),
            decreases t@.len() - b,
        {
            b = b + 1;
        }
        assert(!is_ascii_ws(t@[a as int]));
        assert(b > a);
        proof {
            assert(tokens_from(t@, i as int) == seq![t@.subrange(a as int, b as int)] + tokens_from(t@, b as int));
            acc = acc.push(t@.subrange(a as int, b as int));
            assert(all =~= acc + tokens_from(t@, b as int));
        }
        found.push((a, b));
        i = b;
    }
    proof {
        assert(all.len() >= 4);
        assert forall|k: int| 0 <= k < found@.len() implies #[trigger] all[k] == acc[k] by {}
    }
    found
}

/// A reader of DIMACS shortest-path files (`.gr`), fed one line at a time.
pub struct GrParser {
    node_count: u128,
    declared_n: Option<usize>,
    shift: Option<usize>,
    deferred: Vec<(usize, usize, Option<String>)>,
    edges: Vec<GrEdge>,
}

/// The text of a weight field as a character sequence.
pub open spec fn weight_view(w: Option<String>) -> Option<Seq<char>> {
    match w {
        Some(s) => Some(s@),
        None => None,
    }
}

impl View for GrParser {
    type V = GrModel;

    closed spec fn view(&self) -> GrModel {
        GrModel {
            node_count: self.node_count as nat,
            declared_n: self.declared_n,
            shift: self.shift,
            deferred: Seq::new(
                self.deferred@.len(),
                |i: int| (self.deferred@[i].0, self.deferred@[i].1, weight_view(self.deferred@[i].2)),
            ),
            edges: Seq::new(
                self.edges@.len(),
                |i: int| (self.edges@[i].source, self.edges@[i].target, weight_view(self.edges@[i].weight)),
            ),
        }
    }
}

fn clone_weight(w: &Option<String>) -> (r: Option<String>)
    ensures
        weight_view(r) == weight_view(*w),
{
    match w {
        Some(s) => Some(s.clone()),
        None => None,
    }
}

proof fn lemma_push_arcs_monotone(st: GrModel, arcs: Seq<RawArc>, shift: usize)
    ensures
        st.node_count <= push_arcs(st, arcs, shift).node_count,
        push_arcs(st, arcs, shift).declared_n == st.declared_n,
        push_arcs(st, arcs, shift).shift == st.shift,
        push_arcs(st, arcs, shift).deferred == st.deferred,
    decreases arcs.len(),
{
    if arcs.len() > 0 {
        lemma_push_arcs_monotone(st, arcs.drop_last(), shift);
    }
}

impl GrParser {
    /// A reader that has seen no line yet.
    pub fn new() -> (p: Self)
        ensures
            p@ == initial_model(),
    {
        let p = GrParser { node_count: 0, declared_n: None, shift: None, deferred: Vec::new(), edges: Vec::new() };
        assert(p@.deferred =~= seq![]);
        assert(p@.edges =~= seq![]);
        p
    }

    fn push_arc(&mut self, u: usize, v: usize, w: Option<String>, shift: usize)
        ensures
            final(self)@ == push_arc(old(self)@, (u, v, weight_view(w)), shift),
    {
        if u < shift || v < shift {
            return;
        }
        let u0 = u - shift;
        let v0 = v - shift;
        let need: u128 = if u0 >= v0 { u0 as u128 + 1 } else { v0 as u128 + 1 };
        if self.node_count < need {
            self.node_count = need;
        }
        let ghost wv = weight_view(w);
        self.edges.push(GrEdge { source: u0, target: v0, weight: w });
        assert(self@.edges =~= old(self)@.edges.push((u0, v0, wv)));
    }

    fn push_arcs(&mut self, arcs: &Vec<(usize, usize, Option<String>)>, shift: usize)
        ensures
            final(self)@ == push_arcs(
                old(self)@,
                Seq::new(arcs@.len(), |i: int| (arcs@[i].0, arcs@[i].1, weight_view(arcs@[i].2))),
                shift,
            ),
    {
        let ghost all = Seq::new(arcs@.len(), |i: int| (arcs@[i].0, arcs@[i].1, weight_view(arcs@[i].2)));
        let mut i: usize = 0;
        assert(all.take(0) =~= seq![]);
        while i < arcs.len()
            invariant
                all == Seq::new(arcs@.len(), |i: int| (arcs@[i].0, arcs@[i].1, weight_view(arcs@[i].2))),
                i <= arcs@.len(),
                self@ == push_arcs(old(self)@, all.take(i as int), shift),
            decreases arcs@.len() - i,
        {
            let (u, v, w) = &arcs[i];
            let w2 = clone_weight(w);
            proof {
                assert(all.take(i + 1).drop_last() =~= all.take(i as int));
                assert(all.take(i + 1).last() == (*u, *v, weight_view(w2)));
            }
            self.push_arc(*u, *v, w2, shift);
            i = i + 1;
        }
        assert(all.take(i as int) =~= all);
    }
}

/// The `usize` in field `k`, given the positions of the first fields.
fn usize_at(t: &Vec<char>, r: &Vec<(usize, usize)>, k: usize) -> (res: Option<usize>)
    requires
        k < 4,
        r@.len() == if tokens_from(t@, 0).len() < 4 { tokens_from(t@, 0).len() } else { 4 },
        forall|j: int| 0 <= j < r@.len() ==> {
            &&& #[trigger] r@[j].0 <= r@[j].1 <= t@.len()
            &&& t@.subrange(r@[j].0 as int, r@[j].1 as int) == tokens_from(t@, 0)[j]
        },
    ensures
        res == usize_field(t@, k as int),
{
    if k < r.len() {
        let (a, b) = r[k];
        parse_usize_range(t, a, b)
    } else {
        None
    }
}

impl GrParser {
    /// Reads one line of the file.
    pub fn feed_line(&mut self, line: &str)
        ensures
            final(self)@ == step(old(self)@, line@),
    {
        let chars = chars_of(line);
        let mut a: usize = 0;
        while a < chars.len() && white_space(chars[a])
            invariant
                a <= chars@.len(),
                forall|j: int| 0 <= j < a ==> #[trigger] is_white_space(chars@[j]),
            decreases chars@.len() - a,
        {
            a = a + 1;
        }
        proof {
            lemma_trim_start_at(chars@, a as int);
        }
        let mut t: Vec<char> = Vec::new();
        let mut i = a;
        while i < chars.len()
            invariant
                a <= i <= chars@.len(),
                t@ == chars@.subrange(a as int, i as int),
            decreases chars@.len() - i,
        {
            t.push(chars[i]);
            i = i + 1;
            assert(t@ =~= chars@.subrange(a as int, i as int));
        }
        assert(t@ =~= trim_start(line@));
        if t.len() == 0 {
            return;
        }
        let first = t[0];
        if first == 'p' {
            let r = field_ranges(&t);
            match usize_at(&t, &r, 2) {
                Some(n) => {
                    self.declared_n = Some(n);
                    if self.node_count == 0 {
                        self.node_count = n as u128;
                    }
                    assert(self@.deferred =~= old(self)@.deferred);
                    assert(self@.edges =~= old(self)@.edges);
                },
                None => {},
            }
        } else if first == 'a' || first == 'e' {
            let r = field_ranges(&t);
            let u = match usize_at(&t, &r, 1) {
                Some(x) => x,
                None => {
                    return;
                },
            };
            let v = match usize_at(&t, &r, 2) {
                Some(x) => x,
                None => {
                    return;
                },
            };
            let w: Option<String> = if r.len() > 3 {
                let (b0, b1) = r[3];
                let mut f: Vec<char> = Vec::new();
                let mut j = b0;
                while j < b1
                    invariant
                        b0 <= j <= b1 <= t@.len(),
                        f@ == t@.subrange(b0 as int, j as int),
                    decreases b1 - j,
                {
                    f.push(t[j]);
                    j = j + 1;
                    assert(f@ =~= t@.subrange(b0 as int, j as int));
                }
                Some(chars_to_string(&f))
            } else {
                None
            };
            assert(weight_view(w) == crate::dimacs::field(t@, 3));
            let ghost arc = (u, v, weight_view(w));
            match self.shift {
                Some(sh) => {
                    self.push_arc(u, v, w, sh);
                },
                None => {
                    if u == 0 || v == 0 {
                        let ghost st = old(self)@;
                        let mut pending: Vec<(usize, usize, Option<String>)> = Vec::new();
                        std::mem::swap(&mut pending, &mut self.deferred);
                        assert(Seq::new(pending@.len(), |i: int| (pending@[i].0, pending@[i].1, weight_view(pending@[i].2))) =~= st.deferred);
                        proof {
                            lemma_push_arcs_monotone(st, st.deferred, 0);
                            lemma_push_arcs_monotone(GrModel { deferred: seq![], ..st }, st.deferred, 0);
                            lemma_push_arcs_frame(st, st.deferred, 0);
                        }
                        assert(self@.deferred =~= seq![]);
                        assert(self@.edges =~= st.edges);
                        assert(self@ =~= GrModel { deferred: seq![], ..st });
                        self.push_arcs(&pending, 0);
                        self.shift = Some(0);
                        assert(self@ == GrModel { shift: Some(0usize), deferred: seq![], ..push_arcs(st, st.deferred, 0) });
                        self.push_arc(u, v, w, 0);
                    } else if self.deferred.len() < 3 {
                        self.deferred.push((u, v, w));
                        assert(self@.deferred =~= old(self)@.deferred.push(arc));
                        assert(self@.edges =~= old(self)@.edges);
                    } else {
                        let ghost st = old(self)@;
                        self.deferred.push((u, v, w));
                        let mut pending: Vec<(usize, usize, Option<String>)> = Vec::new();
                        std::mem::swap(&mut pending, &mut self.deferred);
                        assert(Seq::new(pending@.len(), |i: int| (pending@[i].0, pending@[i].1, weight_view(pending@[i].2))) =~= st.deferred.push(arc));
                        proof {
                            lemma_push_arcs_frame(st, st.deferred.push(arc), 1);
                            lemma_push_arcs_monotone(st, st.deferred.push(arc), 1);
                        }
                        assert(self@.edges =~= st.edges);
                        assert(self@.deferred =~= seq![]);
                        assert(self@ =~= GrModel { deferred: seq![], ..st });
                        self.push_arcs(&pending, 1);
                        self.shift = Some(1);
                    }
                },
            }
        }
    }

    /// The node count and the arcs of the whole file: arcs still held back
    /// are read as 1-based, and the node count is at least the declared one.
    /// There is no result when the node count does not fit in a `usize`,
    /// which happens only when an arc names the largest `usize` as a 0-based
    /// node.
    pub fn finish(self) -> (res: Option<(usize, Vec<GrEdge>)>)
        ensures
            match res {
                Some((n, edges)) => {
                    &&& final_model(self@).0 <= usize::MAX
                    &&& n == final_model(self@).0
                    &&& Seq::new(edges@.len(), |i: int| (edges@[i].source, edges@[i].target, weight_view(edges@[i].weight)))
                        == final_model(self@).1
                },
                None => final_model(self@).0 > usize::MAX,
            },
    {
        let ghost st = self@;
        let mut me = self;
        if me.deferred.len() > 0 {
            let sh = match me.shift {
                Some(s) => s,
                None => 1,
            };
            let mut pending: Vec<(usize, usize, Option<String>)> = Vec::new();
            std::mem::swap(&mut pending, &mut me.deferred);
            proof {
                assert(Seq::new(pending@.len(), |i: int| (pending@[i].0, pending@[i].1, weight_view(pending@[i].2))) =~= st.deferred);
                lemma_push_arcs_frame(st, st.deferred, sh);
                lemma_push_arcs_monotone(st, st.deferred, sh);
                assert(me@.edges =~= st.edges);
                assert(me@.deferred =~= seq![]);
                assert(me@ =~= GrModel { deferred: seq![], ..st });
            }
            me.push_arcs(&pending, sh);
            assert(me@.declared_n == st.declared_n);
        }
        let n: u128 = match me.declared_n {
            Some(d) => if me.node_count < d as u128 { d as u128 } else { me.node_count },
            None => me.node_count,
        };
        if n > usize::MAX as u128 {
            return None;
        }
        Some((n as usize, me.edges))
    }
}

/// Adding arcs does not depend on the arcs held back.
proof fn lemma_push_arcs_frame(st: GrModel, arcs: Seq<RawArc>, shift: usize)
    ensures
        (push_arcs(GrModel { deferred: seq![], ..st }, arcs, shift)
            == GrModel { deferred: seq![], ..push_arcs(st, arcs, shift) }),
        (push_arcs(GrModel { shift: Some(shift), deferred: seq![], ..st }, arcs, shift)
            == GrModel { shift: Some(shift), deferred: seq![], ..push_arcs(st, arcs, shift) }),
    decreases arcs.len(),
{
    if arcs.len() > 0 {
        lemma_push_arcs_frame(st, arcs.drop_last(), shift);
    }
}

/// Every arc read so far joins two of the nodes created so far.
pub open spec fn arcs_within(st: GrModel) -> bool {
    forall|k: int| 0 <= k < st.edges.len() ==>
        (#[trigger] st.edges[k]).0 < st.node_count && st.edges[k].1 < st.node_count
}

proof fn lemma_push_arcs_within(st: GrModel, arcs: Seq<RawArc>, shift: usize)
    requires
        arcs_within(st),
    ensures
        arcs_within(push_arcs(st, arcs, shift)),
    decreases arcs.len(),
{
    if arcs.len() > 0 {
        lemma_push_arcs_within(st, arcs.drop_last(), shift);
        let before = push_arcs(st, arcs.drop_last(), shift);
        let after = push_arc(before, arcs.last(), shift);
        assert forall|k: int| 0 <= k < after.edges.len() implies
            (#[trigger] after.edges[k]).0 < after.node_count && after.edges[k].1 < after.node_count by {
            if k < before.edges.len() {
                assert(after.edges[k] == before.edges[k]);
            }
        }
    }
}

proof fn lemma_step_within(st: GrModel, line: Seq<char>)
    requires
        arcs_within(st),
    ensures
        arcs_within(step(st, line)),
{
    let t = trim_start(line);
    if t.len() > 0 && (t[0] == 'a' || t[0] == 'e') {
        match (usize_field(t, 1), usize_field(t, 2)) {
            (Some(u), Some(v)) => {
                let arc = (u, v, field(t, 3));
                match st.shift {
                    Some(s) => lemma_push_arcs_within(st, seq![arc], s),
                    None => if u == 0 || v == 0 {
                        lemma_push_arcs_within(st, st.deferred, 0);
                        let flushed = push_arcs(st, st.deferred, 0);
                        let reset = GrModel { shift: Some(0usize), deferred: seq![], ..flushed };
                        lemma_push_arcs_within(reset, seq![arc], 0);
                        assert(seq![arc].drop_last() =~= Seq::<RawArc>::empty());
                    } else if st.deferred.len() + 1 >= 4 {
                        lemma_push_arcs_within(st, st.deferred.push(arc), 1);
                    },
                }
                assert(seq![arc].drop_last() =~= Seq::<RawArc>::empty());
            },
            _ => {},
        }
    }
}

proof fn lemma_steps_within(lines: Seq<Seq<char>>)
    ensures
        arcs_within(steps(initial_model(), lines)),
    decreases lines.len(),
{
    if lines.len() > 0 {
        lemma_steps_within(lines.drop_last());
        lemma_step_within(steps(initial_model(), lines.drop_last()), lines.last());
    }
}

/// Whatever lines a file holds, every arc of the graph read from it joins
/// two of its nodes.
pub proof fn lemma_final_arcs_within_nodes(lines: Seq<Seq<char>>)
    ensures
        ({
            let (n, arcs) = final_model(steps(initial_model(), lines));
            forall|k: int| 0 <= k < arcs.len() ==> (#[trigger] arcs[k]).0 < n && arcs[k].1 < n
        }),
{
    let st = steps(initial_model(), lines);
    lemma_steps_within(lines);
    if st.deferred.len() > 0 {
        lemma_push_arcs_within(st, st.deferred, match st.shift { Some(s) => s, None => 1 });
    }
}

/// What gzip decompression of `data` gives (flate2's `GzDecoder`, read to
/// the end of its first member), or nothing when `data` is not a valid gzip
/// stream.
pub uninterp spec fn gunzipped(data: Seq<u8>) -> Option<Seq<u8>>;

/// Decompresses a gzip stream with flate2's `GzDecoder`, reading it to the
/// end; the contract says only that the result is what decompression of
/// these bytes gives, and nothing when the decoder reports an error.
#[verifier::external_body]
fn gunzip(data: &[u8]) -> (res: Option<Vec<u8>>)
    ensures
        match res {
            Some(v) => gunzipped(data@) == Some(v@),
            None => gunzipped(data@) is None,
        },
{
    let mut decoder = flate2::read::GzDecoder::new(data);
    let mut out: Vec<u8> = Vec::new();
    match std::io::Read::read_to_end(&mut decoder, &mut out) {
        Ok(_) => Some(out),
        Err(_) => None,
    }
}

/// Position of the first line break at or after `i`, or the end.
pub open spec fn next_newline(t: Seq<char>, i: int) -> int
    decreases t.len() - i,
{
    if 0 <= i < t.len() && t[i] != '\n' {
        next_newline(t, i + 1)
    } else {
        i
    }
}

/// A line without its line break, and without a carriage return before it.
pub open spec fn strip_cr(l: Seq<char>) -> Seq<char> {
    if l.len() > 0 && l.last() == '\r' {
        l.drop_last()
    } else {
        l
    }
}

/// The lines of `t` from position `i` on, as `BufRead::lines` gives them:
/// split at each `\n`, a `\r` before the `\n` dropped, and no empty line
/// after a final `\n`.
pub open spec fn lines_from(t: Seq<char>, i: int) -> Seq<Seq<char>>
    decreases t.len() - i,
{
    if 0 <= i < t.len() {
        let k = next_newline(t, i);
        if k >= t.len() {
            seq![t.subrange(i, t.len() as int)]
        } else if i <= k {
            seq![strip_cr(t.subrange(i, k))] + lines_from(t, k + 1)
        } else {
            seq![]
        }
    } else {
        seq![]
    }
}

/// The lines of a text.
pub open spec fn text_lines(t: Seq<char>) -> Seq<Seq<char>> {
    lines_from(t, 0)
}

/// The bytes of a DIMACS file once decompressed, if it is compressed.
pub open spec fn gr_file_bytes(data: Seq<u8>, gzipped: bool) -> Option<Seq<u8>> {
    if gzipped {
        gunzipped(data)
    } else {
        Some(data)
    }
}

/// The graph that the lines of a DIMACS text describe.
pub open spec fn gr_text_graph(text: Seq<char>) -> (nat, Seq<ArcModel>) {
    final_model(steps(initial_model(), text_lines(text)))
}

/// Why a DIMACS file could not be read.
#[derive(Debug, Clone, Copy, PartialEq, Eq, Structural)]
pub enum GrFileError {
    /// The file is meant to be gzip-compressed and does not decompress.
    BadGzip,
    /// The (decompressed) bytes are not valid UTF-8.
    NotUtf8,
    /// An arc names the largest `usize` as a 0-based node, so the node
    /// count does not fit in a `usize`.
    NodeCountOverflow,
}

proof fn lemma_next_newline(t: Seq<char>, i: int, j: int)
    requires
        0 <= i <= j <= t.len(),
        forall|m: int| i <= m < j ==> t[m] != '\n',
        j == t.len() || t[j] == '\n',
    ensures
        next_newline(t, i) == j,
    decreases j - i,
{
    if i < j {
        lemma_next_newline(t, i + 1, j);
    }
}

/// The graph that a whole DIMACS file describes, held in memory as `data`
/// and decompressed first when `gzipped`: its text is split into lines as
/// `BufRead::lines` splits them, and the lines go to `GrParser` in order.
/// It fails when the data do not decompress, are not UTF-8, or name a node
/// too large for the node count.
pub fn read_gr_bytes(data: &[u8], gzipped: bool) -> (res: Result<(usize, Vec<GrEdge>), GrFileError>)
    ensures
        match res {
            Ok((n, edges)) => {
                &&& gr_file_bytes(data@, gzipped) is Some
                &&& valid_utf8(gr_file_bytes(data@, gzipped)->0)
                &&& n == gr_text_graph(decode_utf8(gr_file_bytes(data@, gzipped)->0)).0
                &&& Seq::new(edges@.len(), |i: int| (edges@[i].source, edges@[i].target, weight_view(edges@[i].weight)))
                    == gr_text_graph(decode_utf8(gr_file_bytes(data@, gzipped)->0)).1
                &&& Seq::new(edges@.len(), |i: int| (edges@[i].source, edges@[i].target, weight_view(edges@[i].weight)))
                    == lowered_arcs(
                        file_arcs(text_lines(decode_utf8(gr_file_bytes(data@, gzipped)->0))),
                        if zero_among_first_four(file_arcs(text_lines(decode_utf8(gr_file_bytes(data@, gzipped)->0)))) {
                            0usize
                        } else {
                            1usize
                        },
                    )
            },
            Err(GrFileError::BadGzip) => gr_file_bytes(data@, gzipped) is None,
            Err(GrFileError::NotUtf8) => gr_file_bytes(data@, gzipped) is Some
                && !valid_utf8(gr_file_bytes(data@, gzipped)->0),
            Err(GrFileError::NodeCountOverflow) => {
                &&& gr_file_bytes(data@, gzipped) is Some
                &&& valid_utf8(gr_file_bytes(data@, gzipped)->0)
                &&& gr_text_graph(decode_utf8(gr_file_bytes(data@, gzipped)->0)).0 > usize::MAX
            },
        },
{
    let text = if gzipped {
        match gunzip(data) {
            Some(raw) => utf8_text(raw.as_slice()),
            None => {
                return Err(GrFileError::BadGzip);
            },
        }
    } else {
        utf8_text(data)
    };
    let text = match text {
        Some(s) => s,
        None => {
            return Err(GrFileError::NotUtf8);
        },
    };
    let ghost bytes = gr_file_bytes(data@, gzipped)->0;
    let t = chars_of(text.as_str());
    assert(t@ == decode_utf8(bytes));
    let mut parser = GrParser::new();
    let ghost mut done: Seq<Seq<char>> = seq![];
    let mut line: Vec<char> = Vec::new();
    let mut start: usize = 0;
    let mut i: usize = 0;
    while i < t.len()
        invariant
            start <= i <= t@.len(),
            line@ == t@.subrange(start as int, i as int),
            forall|m: int| start <= m < i ==> t@[m] != '\n',
            parser@ == steps(initial_model(), done),
            done + lines_from(t@, start as int) == text_lines(t@),
        decreases t@.len() - i,
    {
        let c = t[i];
        if c == '\n' {
            proof {
                lemma_next_newline(t@, start as int, i as int);
                assert(lines_from(t@, start as int)
                    == seq![strip_cr(t@.subrange(start as int, i as int))] + lines_from(t@, i + 1));
            }
            if line.len() > 0 && line[line.len() - 1] == '\r' {
                line.pop();
            }
            assert(line@ == strip_cr(t@.subrange(start as int, i as int)));
            let s = chars_to_string(&line);
            parser.feed_line(s.as_str());
            proof {
                let l = strip_cr(t@.subrange(start as int, i as int));
                assert(done.push(l).drop_last() =~= done);
                assert(done + lines_from(t@, start as int) =~= done.push(l) + lines_from(t@, i + 1));
                done = done.push(l);
            }
            line = Vec::new();
            start = i + 1;
            i = i + 1;
            assert(line@ =~= t@.subrange(start as int, i as int));
        } else {
            line.push(c);
            i = i + 1;
            assert(line@ =~= t@.subrange(start as int, i as int));
        }
    }
    if start < t.len() {
        proof {
            lemma_next_newline(t@, start as int, t@.len() as int);
            assert(lines_from(t@, start as int) == seq![t@.subrange(start as int, t@.len() as int)]);
        }
        let s = chars_to_string(&line);
        parser.feed_line(s.as_str());
        proof {
            let l = t@.subrange(start as int, t@.len() as int);
            assert(done.push(l).drop_last() =~= done);
            assert(done + lines_from(t@, start as int) =~= done.push(l));
            done = done.push(l);
        }
    } else {
        assert(done =~= done + lines_from(t@, start as int));
    }
    assert(done == text_lines(t@));
    proof {
        lemma_file_numbering(text_lines(t@));
    }
    match parser.finish() {
        Some(g) => Ok(g),
        None => Err(GrFileError::NodeCountOverflow),
    }
}

/// The arc that a line gives: an arc line (`a` or `e` after leading white
/// space) whose two endpoints parse as numbers.
pub open spec fn line_arc(line: Seq<char>) -> Option<RawArc> {
    let t = trim_start(line);
    if t.len() > 0 && (t[0] == 'a' || t[0] == 'e') {
        match (usize_field(t, 1), usize_field(t, 2)) {
            (Some(u), Some(v)) => Some((u, v, field(t, 3))),
            _ => None,
        }
    } else {
        None
    }
}

/// The arcs of a file, in the order of their lines, as written.
pub open spec fn file_arcs(lines: Seq<Seq<char>>) -> Seq<RawArc>
    decreases lines.len(),
{
    if lines.len() == 0 {
        seq![]
    } else {
        let p = file_arcs(lines.drop_last());
        match line_arc(lines.last()) {
            Some(a) => p.push(a),
            None => p,
        }
    }
}

/// The arc names node 0.
pub open spec fn names_node_zero(a: RawArc) -> bool {
    a.0 == 0 || a.1 == 0
}

/// One of the first four arcs names node 0.
pub open spec fn zero_among_first_four(arcs: Seq<RawArc>) -> bool {
    exists|k: int| 0 <= k < 4 && k < arcs.len() && #[trigger] names_node_zero(arcs[k])
}

/// The arcs with both endpoints lowered by `s`, in order, without the arcs
/// that name a node below `s`.
pub open spec fn lowered_arcs(arcs: Seq<RawArc>, s: usize) -> Seq<ArcModel>
    decreases arcs.len(),
{
    if arcs.len() == 0 {
        seq![]
    } else {
        let p = lowered_arcs(arcs.drop_last(), s);
        let a = arcs.last();
        if a.0 < s || a.1 < s {
            p
        } else {
            p.push(((a.0 - s) as usize, (a.1 - s) as usize, a.2))
        }
    }
}

/// What the reader knows about the numbering after reading the arcs `arcs`.
spec fn numbering_state(st: GrModel, arcs: Seq<RawArc>) -> bool {
    &&& st.shift is None ==> {
        &&& st.deferred == arcs
        &&& arcs.len() < 4
        &&& (forall|k: int| 0 <= k < arcs.len() ==> !#[trigger] names_node_zero(arcs[k]))
        &&& st.edges == Seq::<ArcModel>::empty()
    }
    &&& st.shift == Some(0usize) ==> {
        &&& st.deferred.len() == 0
        &&& st.edges == lowered_arcs(arcs, 0)
        &&& zero_among_first_four(arcs)
    }
    &&& st.shift == Some(1usize) ==> {
        &&& st.deferred.len() == 0
        &&& st.edges == lowered_arcs(arcs, 1)
        &&& arcs.len() >= 4
        &&& !zero_among_first_four(arcs)
    }
    &&& st.shift is Some ==> (st.shift == Some(0usize) || st.shift == Some(1usize))
}

proof fn lemma_push_arcs_edges(st: GrModel, arcs: Seq<RawArc>, s: usize)
    ensures
        push_arcs(st, arcs, s).edges == st.edges + lowered_arcs(arcs, s),
        push_arcs(st, arcs, s).shift == st.shift,
        push_arcs(st, arcs, s).deferred == st.deferred,
    decreases arcs.len(),
{
    if arcs.len() > 0 {
        lemma_push_arcs_edges(st, arcs.drop_last(), s);
        let p = push_arcs(st, arcs.drop_last(), s);
        let a = arcs.last();
        if !(a.0 < s || a.1 < s) {
            assert(st.edges + lowered_arcs(arcs, s) =~= (st.edges + lowered_arcs(arcs.drop_last(), s)).push(
                ((a.0 - s) as usize, (a.1 - s) as usize, a.2),
            ));
        }
    } else {
        assert(st.edges + lowered_arcs(arcs, s) =~= st.edges);
    }
}

proof fn lemma_zero_among_first_four_push(arcs: Seq<RawArc>, a: RawArc)
    ensures
        arcs.len() >= 4 ==> (zero_among_first_four(arcs.push(a)) <==> zero_among_first_four(arcs)),
        zero_among_first_four(arcs) ==> zero_among_first_four(arcs.push(a)),
        arcs.len() < 4 && names_node_zero(a) ==> zero_among_first_four(arcs.push(a)),
        (forall|k: int| 0 <= k < arcs.len() ==> !#[trigger] names_node_zero(arcs[k])) && !names_node_zero(a)
            ==> (forall|k: int| 0 <= k < arcs.push(a).len() ==> !#[trigger] names_node_zero(arcs.push(a)[k])),
        (forall|k: int| 0 <= k < arcs.len() ==> !#[trigger] names_node_zero(arcs[k])) ==> !zero_among_first_four(arcs),
{
    let b = arcs.push(a);
    if zero_among_first_four(arcs) {
        let k = choose|k: int| 0 <= k < 4 && k < arcs.len() && #[trigger] names_node_zero(arcs[k]);
        assert(b[k] == arcs[k]);
    }
    if arcs.len() >= 4 && zero_among_first_four(b) {
        let k = choose|k: int| 0 <= k < 4 && k < b.len() && #[trigger] names_node_zero(b[k]);
        assert(b[k] == arcs[k]);
    }
    if arcs.len() < 4 && names_node_zero(a) {
        assert(b[arcs.len() as int] == a);
    }
    if (forall|k: int| 0 <= k < arcs.len() ==> !#[trigger] names_node_zero(arcs[k])) && !names_node_zero(a) {
        assert forall|k: int| 0 <= k < b.len() implies !#[trigger] names_node_zero(b[k]) by {
            if k < arcs.len() {
                assert(b[k] == arcs[k]);
            }
        }
    }
}

proof fn lemma_step_numbering(st: GrModel, arcs: Seq<RawArc>, line: Seq<char>)
    requires
        numbering_state(st, arcs),
    ensures
        numbering_state(step(st, line), match line_arc(line) {
            Some(a) => arcs.push(a),
            None => arcs,
        }),
{
    let t = trim_start(line);
    match line_arc(line) {
        None => {},
        Some(a) => {
            let (u, v, w) = a;
            lemma_zero_among_first_four_push(arcs, a);
            match st.shift {
                Some(s) => {
                    lemma_push_arcs_edges(st, seq![a], s);
                    assert(seq![a].drop_last() =~= Seq::<RawArc>::empty());
                    assert(seq![a].last() == a);
                    assert(push_arcs(st, Seq::<RawArc>::empty(), s) == st);
                    assert(lowered_arcs(Seq::<RawArc>::empty(), s) =~= Seq::<ArcModel>::empty());
                    assert(arcs.push(a).drop_last() =~= arcs);
                    assert(arcs.push(a).last() == a);
                    assert(push_arc(st, a, s) == push_arcs(st, seq![a], s));
                    if !(u < s || v < s) {
                        assert(lowered_arcs(seq![a], s) =~= seq![((u - s) as usize, (v - s) as usize, w)]);
                    } else {
                        assert(lowered_arcs(seq![a], s) =~= Seq::<ArcModel>::empty());
                    }
                },
                None => {
                    assert(arcs.push(a).drop_last() =~= arcs);
                    if u == 0 || v == 0 {
                        let flushed = push_arcs(st, st.deferred, 0);
                        lemma_push_arcs_edges(st, st.deferred, 0);
                        let reset = GrModel { shift: Some(0usize), deferred: seq![], ..flushed };
                        assert(reset.edges =~= lowered_arcs(arcs, 0));
                    } else if arcs.len() < 3 {
                    } else {
                        lemma_push_arcs_edges(st, st.deferred.push(a), 1);
                        assert(Seq::<ArcModel>::empty() + lowered_arcs(arcs.push(a), 1) =~= lowered_arcs(arcs.push(a), 1));
                    }
                },
            }
        },
    }
}

proof fn lemma_steps_numbering(lines: Seq<Seq<char>>)
    ensures
        numbering_state(steps(initial_model(), lines), file_arcs(lines)),
    decreases lines.len(),
{
    if lines.len() > 0 {
        lemma_steps_numbering(lines.drop_last());
        lemma_step_numbering(steps(initial_model(), lines.drop_last()), file_arcs(lines.drop_last()), lines.last());
    } else {
        assert(initial_model().deferred =~= file_arcs(lines));
    }
}

/// The numbering of a file: it is 0-based when one of its first four arcs
/// names node 0, and 1-based otherwise. Every arc of the file appears in
/// the graph, in the order of the file, with its endpoints lowered by the
/// numbering's base; only in a 1-based file are the arcs that name node 0
/// dropped. So no arc of a file that names node 0 among its first four
/// arcs is dropped or shifted.
pub proof fn lemma_file_numbering(lines: Seq<Seq<char>>)
    ensures
        final_model(steps(initial_model(), lines)).1 == lowered_arcs(
            file_arcs(lines),
            if zero_among_first_four(file_arcs(lines)) { 0usize } else { 1usize },
        ),
{
    let st = steps(initial_model(), lines);
    let arcs = file_arcs(lines);
    lemma_steps_numbering(lines);
    if st.deferred.len() > 0 {
        lemma_zero_among_first_four_push(arcs, (1usize, 1usize, None));
        lemma_push_arcs_edges(st, st.deferred, match st.shift { Some(s) => s, None => 1 });
        assert(st.edges + lowered_arcs(arcs, 1) =~= lowered_arcs(arcs, 1));
    } else if st.shift is None {
        assert(arcs.len() == 0);
        assert(lowered_arcs(arcs, 0) =~= Seq::<ArcModel>::empty());
        assert(lowered_arcs(arcs, 1) =~= Seq::<ArcModel>::empty());
    }
}

/// With 0-based numbering the arcs keep the endpoints they were written with.
pub proof fn lemma_lowered_by_zero(arcs: Seq<RawArc>)
    ensures
        lowered_arcs(arcs, 0) == arcs,
    decreases arcs.len(),
{
    if arcs.len() > 0 {
        lemma_lowered_by_zero(arcs.drop_last());
        assert(arcs.drop_last().push(arcs.last()) =~= arcs);
    } else {
        assert(lowered_arcs(arcs, 0) =~= arcs);
    }
}

} // verus!
