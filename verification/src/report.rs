//! The facts a spatial report shows: notable function pairs, how tightly a
//! pair is coupled, and how positions and cycles are written.
use vstd::prelude::*;

use crate::code_graph::{CodeGraph, FnKey, NodeView};
use crate::lattice::{distance_between, distance_defined, lattice_dist};
use crate::ranking::{all_rank_ok, is_top, top_ranked, Ranked};
use crate::snap_navigation::name_le;
use crate::{FunctionId, LatticePos};

verus! {

/// Formatting style for reports.
#[derive(Clone, Copy, PartialEq, Eq, Structural, Debug)]
pub enum ReportStyle {
    /// Human-readable text.
    Normal,
    /// Machine-readable JSON.
    Json,
}

/// Information about a notable function pair.
#[derive(Clone, Copy, PartialEq, Eq, Structural, Debug)]
pub struct PairInfo {
    /// Lattice distance between the two functions.
    pub lattice_distance: u32,
    /// How many times either calls the other.
    pub call_count: u64,
}

/// The largest number of calls a function may list, so that call counts
/// stay far from any integer limit.
pub open spec fn max_calls() -> int {
    0x1_0000_0000_0000
}

/// Whether name `a` sorts strictly before name `b`.
pub open spec fn name_lt(a: Seq<char>, b: Seq<char>) -> bool {
    name_le(a, b) && a != b
}

/// The key under which a pair of functions is reported once: their names,
/// the smaller first.
pub open spec fn pair_key(fns: Seq<NodeView>, i: int, j: int) -> (Seq<char>, Seq<char>) {
    let (a, b) = (fns[i].id.1, fns[j].id.1);
    if name_lt(a, b) {
        (a, b)
    } else {
        (b, a)
    }
}

/// Whether the ordered pair `(i2, j2)` of distinct functions comes before
/// `(i, j)`, the first index outermost.
pub open spec fn pair_before(i2: int, j2: int, i: int, j: int) -> bool {
    i2 != j2 && (i2 < i || (i2 == i && j2 < j))
}

/// Whether some pair before `(i, j)` has the key `k`.
pub open spec fn key_seen(fns: Seq<NodeView>, i: int, j: int, k: (Seq<char>, Seq<char>)) -> bool {
    exists|i2: int, j2: int|
        #![trigger pair_key(fns, i2, j2)]
        0 <= i2 < fns.len() && 0 <= j2 < fns.len() && pair_before(i2, j2, i, j) && pair_key(fns, i2, j2) == k
}

/// How many times node `a` lists `b` among its calls.
pub open spec fn calls_count(a: NodeView, b: FnKey) -> nat {
    a.calls.filter(|c: FnKey| c == b).len()
}

/// The calls between functions `i` and `j`, either way.
pub open spec fn mutual_calls(fns: Seq<NodeView>, i: int, j: int) -> nat {
    calls_count(fns[i], fns[j].id) + calls_count(fns[j], fns[i].id)
}

/// Whether the pair `(i, j)` is reported: the functions differ, no earlier
/// pair has its key, they are within lattice distance 10, and they call
/// each other.
pub open spec fn notable(fns: Seq<NodeView>, i: int, j: int) -> bool {
    &&& i != j
    &&& !key_seen(fns, i, j, pair_key(fns, i, j))
    &&& lattice_dist(fns[i].pos, fns[j].pos) <= 10
    &&& mutual_calls(fns, i, j) > 0
}

/// What a reported pair denotes.
pub open spec fn pair_view(t: (FunctionId, FunctionId, PairInfo)) -> (FnKey, FnKey, u32, u64) {
    (t.0@, t.1@, t.2.lattice_distance, t.2.call_count)
}

/// The entry of the pair `(i, j)`.
pub open spec fn pair_entry(fns: Seq<NodeView>, i: int, j: int) -> (FnKey, FnKey, u32, u64) {
    (fns[i].id, fns[j].id, lattice_dist(fns[i].pos, fns[j].pos) as u32, mutual_calls(fns, i, j) as u64)
}

/// The notable pairs `(i, j)` for `j < k`, in order.
pub open spec fn row_pairs(fns: Seq<NodeView>, i: int, k: int) -> Seq<(FnKey, FnKey, u32, u64)>
    decreases k,
{
    if k <= 0 {
        Seq::empty()
    } else {
        row_pairs(fns, i, k - 1) + if notable(fns, i, k - 1) {
            seq![pair_entry(fns, i, k - 1)]
        } else {
            Seq::empty()
        }
    }
}

/// The notable pairs `(i, j)` for `i < k`, in order.
pub open spec fn notable_pairs(fns: Seq<NodeView>, k: int) -> Seq<(FnKey, FnKey, u32, u64)>
    decreases k,
{
    if k <= 0 {
        Seq::empty()
    } else {
        notable_pairs(fns, k - 1) + row_pairs(fns, k - 1, fns.len() as int)
    }
}

impl Ranked for (FunctionId, FunctionId, PairInfo) {
    open spec fn rank_ok(self) -> bool {
        self.2.call_count <= 2 * max_calls()
    }

    /// A higher ratio of calls to distance plus one comes first.
    open spec fn ranks_le(self, other: Self) -> bool {
        self.2.call_count * (other.2.lattice_distance + 1) >= other.2.call_count * (self.2.lattice_distance + 1)
    }

    fn ranks_before(&self, other: &Self) -> (b: bool) {
        let (a, b, c, d) = (
            self.2.call_count as u128,
            other.2.lattice_distance as u128 + 1,
            other.2.call_count as u128,
            self.2.lattice_distance as u128 + 1,
        );
        proof {
            assert(a * b <= 0x2_0000_0000_0000 * 0x1_0000_0000) by (nonlinear_arith)
                requires
                    a <= 0x2_0000_0000_0000,
                    b <= 0x1_0000_0000,
                    0 <= a,
                    0 <= b,
            ;
            assert(c * d <= 0x2_0000_0000_0000 * 0x1_0000_0000) by (nonlinear_arith)
                requires
                    c <= 0x2_0000_0000_0000,
                    d <= 0x1_0000_0000,
                    0 <= c,
                    0 <= d,
            ;
        }
        a * b >= c * d
    }

    proof fn lemma_ranks_total(a: Self, b: Self) {
    }

    proof fn lemma_ranks_trans(a: Self, b: Self, c: Self) {
        let (ao, at, bo, bt, co, ct) = (
            a.2.call_count as int,
            a.2.lattice_distance + 1,
            b.2.call_count as int,
            b.2.lattice_distance + 1,
            c.2.call_count as int,
            c.2.lattice_distance + 1,
        );
        assert(ao * ct >= co * at) by (nonlinear_arith)
            requires
                ao * bt >= bo * at,
                bo * ct >= co * bt,
                at > 0,
                bt > 0,
                ct > 0,
                ao >= 0,
                bo >= 0,
                co >= 0,
        {
            assert(ao * bt * ct >= bo * at * ct);
            assert(bo * ct * at >= co * bt * at);
            assert(ao * ct * bt >= co * at * bt);
        }
    }
}

/// How many times `v` holds `id`.
fn count_calls(v: &Vec<FunctionId>, id: &FunctionId) -> (c: u64)
    requires
        v@.len() <= max_calls(),
    ensures
        c == crate::code_graph::keys(v@).filter(|x: FnKey| x == id@).len(),
{
    let ghost ks = crate::code_graph::keys(v@);
    let mut c: u64 = 0;
    let mut k: usize = 0;
    while k < v.len()
        invariant
            ks == crate::code_graph::keys(v@),
            k <= v@.len(),
            v@.len() <= max_calls(),
            c == ks.take(k as int).filter(|x: FnKey| x == id@).len(),
            c <= k,
        decreases v@.len() - k,
    {
        proof {
            assert(ks[k as int] == v@[k as int]@);
            assert(ks.take(k + 1) =~= ks.take(k as int).push(v@[k as int]@));
            ks.take(k as int).lemma_filter_push(v@[k as int]@, |x: FnKey| x == id@);
        }
        if v[k] == *id {
            c = c + 1;
        }
        k = k + 1;
    }
    proof {
        assert(ks.take(ks.len() as int) =~= ks);
    }
    c
}

/// The key of a pair of names: the smaller first.
fn name_pair_key(a: &String, b: &String) -> (k: (String, String))
    ensures
        (k.0@, k.1@) == (if name_lt(a@, b@) {
            (a@, b@)
        } else {
            (b@, a@)
        }),
{
    if crate::snap_navigation::names_le(a, b) && *a != *b {
        (a.clone(), b.clone())
    } else {
        (b.clone(), a.clone())
    }
}

/// What a sequence of name pairs denotes.
pub open spec fn key_views(s: Seq<(String, String)>) -> Seq<(Seq<char>, Seq<char>)> {
    s.map_values(|x: (String, String)| (x.0@, x.1@))
}

/// Whether `seen` holds the key `k`.
fn holds_key(seen: &Vec<(String, String)>, k: &(String, String)) -> (b: bool)
    ensures
        b == key_views(seen@).contains((k.0@, k.1@)),
{
    let ghost sv = key_views(seen@);
    let mut q: usize = 0;
    while q < seen.len()
        invariant
            sv == key_views(seen@),
            q <= seen@.len(),
            forall|r: int| 0 <= r < q ==> sv[r] != (k.0@, k.1@),
        decreases seen@.len() - q,
    {
        if seen[q].0 == k.0 && seen[q].1 == k.1 {
            proof {
                assert(sv[q as int] == (k.0@, k.1@));
            }
            return true;
        }
        q = q + 1;
    }
    proof {
        if sv.contains((k.0@, k.1@)) {
            let r = choose|r: int| 0 <= r < sv.len() && sv[r] == (k.0@, k.1@);
        }
    }
    false
}

/// The pairs of functions that call each other and lie within lattice
/// distance 10, each pair of names once (the first ordered pair with those
/// names, in registration order, decides), highest ratio of calls to
/// distance plus one first, at most `max_pairs`.
pub fn find_notable_pairs(graph: &CodeGraph, max_pairs: usize) -> (r: Vec<(FunctionId, FunctionId, PairInfo)>)
    requires
        forall|i: int, j: int|
            0 <= i < graph.fns().len() && 0 <= j < graph.fns().len() ==> distance_defined(
                #[trigger] graph.fns()[i].pos,
                #[trigger] graph.fns()[j].pos,
            ),
        forall|i: int| 0 <= i < graph.fns().len() ==> (#[trigger] graph.fns()[i]).calls.len() <= max_calls(),
    ensures
        exists|c: Seq<(FunctionId, FunctionId, PairInfo)>|
            #![trigger is_top(r@, c, max_pairs as int)]
            c.map_values(|t: (FunctionId, FunctionId, PairInfo)| pair_view(t)) == notable_pairs(
                graph.fns(),
                graph.fns().len() as int,
            ) && is_top(r@, c, max_pairs as int),
{
    let ghost fns = graph.fns();
    let n = graph.functions.len();
    let mut seen: Vec<(String, String)> = Vec::new();
    let mut pairs: Vec<(FunctionId, FunctionId, PairInfo)> = Vec::new();
    let mut i: usize = 0;
    while i < n
        invariant
            fns == graph.fns(),
            n == fns.len(),
            forall|a: int, b: int|
                0 <= a < n && 0 <= b < n ==> distance_defined(#[trigger] fns[a].pos, #[trigger] fns[b].pos),
            forall|a: int| 0 <= a < n ==> (#[trigger] fns[a]).calls.len() <= max_calls(),
            i <= n,
            pairs@.map_values(|t: (FunctionId, FunctionId, PairInfo)| pair_view(t)) == notable_pairs(fns, i as int),
            all_rank_ok(pairs@),
            forall|k: (Seq<char>, Seq<char>)|
                #[trigger] key_views(seen@).contains(k) <==> key_seen(
                    fns,
                    i as int,
                    0,
                    k,
                ),
        decreases n - i,
    {
        let ghost p0 = pairs@.map_values(|t: (FunctionId, FunctionId, PairInfo)| pair_view(t));
        let mut j: usize = 0;
        while j < n
            invariant
                fns == graph.fns(),
                n == fns.len(),
                forall|a: int, b: int|
                    0 <= a < n && 0 <= b < n ==> distance_defined(#[trigger] fns[a].pos, #[trigger] fns[b].pos),
                forall|a: int| 0 <= a < n ==> (#[trigger] fns[a]).calls.len() <= max_calls(),
                i < n,
                j <= n,
                p0 == notable_pairs(fns, i as int),
                pairs@.map_values(|t: (FunctionId, FunctionId, PairInfo)| pair_view(t)) == p0 + row_pairs(
                    fns,
                    i as int,
                    j as int,
                ),
                all_rank_ok(pairs@),
                forall|k: (Seq<char>, Seq<char>)|
                    #[trigger] key_views(seen@).contains(k) <==> key_seen(
                        fns,
                        i as int,
                        j as int,
                        k,
                    ),
            decreases n - j,
        {
            let ghost sv0 = key_views(seen@);
            let ghost pv0 = pairs@.map_values(|t: (FunctionId, FunctionId, PairInfo)| pair_view(t));
            proof {
                assert(fns[i as int] == graph.functions@[i as int]@);
                assert(fns[j as int] == graph.functions@[j as int]@);
                assert forall|k: (Seq<char>, Seq<char>)| key_seen(fns, i as int, j + 1, k) <==> (key_seen(
                    fns,
                    i as int,
                    j as int,
                    k,
                ) || (i != j && pair_key(fns, i as int, j as int) == k)) by {
                    if key_seen(fns, i as int, j + 1, k) {
                        let (i2, j2) = choose|i2: int, j2: int|
                            #![trigger pair_key(fns, i2, j2)]
                            0 <= i2 < fns.len() && 0 <= j2 < fns.len() && pair_before(i2, j2, i as int, j + 1)
                                && pair_key(fns, i2, j2) == k;
                        if !(i2 == i && j2 == j) {
                            assert(pair_before(i2, j2, i as int, j as int));
                        }
                    }
                    if i != j && pair_key(fns, i as int, j as int) == k {
                        assert(pair_before(i as int, j as int, i as int, j + 1));
                    }
                    if key_seen(fns, i as int, j as int, k) {
                        let (i2, j2) = choose|i2: int, j2: int|
                            #![trigger pair_key(fns, i2, j2)]
                            0 <= i2 < fns.len() && 0 <= j2 < fns.len() && pair_before(i2, j2, i as int, j as int)
                                && pair_key(fns, i2, j2) == k;
                        assert(pair_before(i2, j2, i as int, j + 1));
                    }
                }
                assert(row_pairs(fns, i as int, j + 1) == row_pairs(fns, i as int, j as int) + if notable(
                    fns,
                    i as int,
                    j as int,
                ) {
                    seq![pair_entry(fns, i as int, j as int)]
                } else {
                    Seq::empty()
                });
            }
            if i != j {
                let a = &graph.functions[i];
                let b = &graph.functions[j];
                let key = name_pair_key(&a.id.name, &b.id.name);
                if !holds_key(&seen, &key) {
                    let ghost kv = (key.0@, key.1@);
                    seen.push(key);
                    proof {
                        assert(key_views(seen@) =~= sv0.push(kv));
                        assert(kv == pair_key(fns, i as int, j as int));
                        assert forall|k: (Seq<char>, Seq<char>)|
                            #[trigger] key_views(seen@).contains(k) <==> key_seen(
                                fns,
                                i as int,
                                j + 1,
                                k,
                            ) by {
                            let sv = key_views(seen@);
                            if sv.contains(k) {
                                let q = choose|q: int| 0 <= q < sv.len() && sv[q] == k;
                                if q < sv0.len() {
                                    assert(sv0[q] == k);
                                }
                            }
                            if sv0.contains(k) {
                                let q = choose|q: int| 0 <= q < sv0.len() && sv0[q] == k;
                                assert(sv[q] == k);
                            }
                            if k == kv {
                                assert(sv[sv0.len() as int] == k);
                            }
                        }
                    }
                    let dist = distance_between(a.pos, b.pos);
                    if dist <= 10 {
                        let c1 = count_calls(&a.calls, &b.id);
                        let c2 = count_calls(&b.calls, &a.id);
                        let count = c1 + c2;
                        if count > 0 {
                            let entry = (a.id.clone(), b.id.clone(), PairInfo { lattice_distance: dist, call_count: count });
                            pairs.push(entry);
                            proof {
                                assert(notable(fns, i as int, j as int));
                                assert(pair_view(entry) == pair_entry(fns, i as int, j as int));
                                assert(pairs@.map_values(|t: (FunctionId, FunctionId, PairInfo)| pair_view(t)) =~= pv0.push(
                                    pair_entry(fns, i as int, j as int),
                                ));
                            }
                        } else {
                            proof {
                                assert(!notable(fns, i as int, j as int));
                            }
                        }
                    } else {
                        proof {
                            assert(!notable(fns, i as int, j as int));
                        }
                    }
                } else {
                    proof {
                        assert(!notable(fns, i as int, j as int));
                    }
                }
            }
            proof {
                assert(pairs@.map_values(|t: (FunctionId, FunctionId, PairInfo)| pair_view(t)) =~= p0 + row_pairs(
                    fns,
                    i as int,
                    j + 1,
                ));
            }
            j = j + 1;
        }
        proof {
            assert forall|k: (Seq<char>, Seq<char>)| key_seen(fns, i + 1, 0, k) <==> key_seen(fns, i as int, n as int, k) by {
                if key_seen(fns, i + 1, 0, k) {
                    let (i2, j2) = choose|i2: int, j2: int|
                        #![trigger pair_key(fns, i2, j2)]
                        0 <= i2 < fns.len() && 0 <= j2 < fns.len() && pair_before(i2, j2, i + 1, 0) && pair_key(fns, i2, j2)
                            == k;
                    assert(pair_before(i2, j2, i as int, n as int));
                }
                if key_seen(fns, i as int, n as int, k) {
                    let (i2, j2) = choose|i2: int, j2: int|
                        #![trigger pair_key(fns, i2, j2)]
                        0 <= i2 < fns.len() && 0 <= j2 < fns.len() && pair_before(i2, j2, i as int, n as int)
                            && pair_key(fns, i2, j2) == k;
                    assert(pair_before(i2, j2, i + 1, 0));
                }
            }
        }
        i = i + 1;
    }
    let ghost cs = pairs@;
    let r = top_ranked(pairs, max_pairs);
    proof {
        assert(is_top(r@, cs, max_pairs as int));
    }
    r
}

/// How tightly two functions at lattice distance `d` are coupled.
pub open spec fn coupling_of(d: int) -> Seq<char> {
    if d <= 1 {
        "tight"@
    } else if d <= 3 {
        "moderate"@
    } else {
        "loose"@
    }
}

/// How tightly two functions at lattice distance `d` are coupled: tight
/// within 1, moderate within 3, loose beyond.
pub fn coupling_label(d: u32) -> (s: &'static str)
    ensures
        s@ == coupling_of(d as int),
{
    if d <= 1 {
        "tight"
    } else if d <= 3 {
        "moderate"
    } else {
        "loose"
    }
}

/// The character of decimal digit `d`.
pub open spec fn digit_char(d: int) -> char {
    if d == 0 {
        '0'
    } else if d == 1 {
        '1'
    } else if d == 2 {
        '2'
    } else if d == 3 {
        '3'
    } else if d == 4 {
        '4'
    } else if d == 5 {
        '5'
    } else if d == 6 {
        '6'
    } else if d == 7 {
        '7'
    } else if d == 8 {
        '8'
    } else {
        '9'
    }
}

/// The decimal digits of `n`, most significant first.
pub open spec fn decimal(n: nat) -> Seq<char>
    decreases n,
{
    if n < 10 {
        seq![digit_char(n as int)]
    } else {
        decimal(n / 10).push(digit_char((n % 10) as int))
    }
}

/// `x` in decimal, with a minus sign when negative.
pub open spec fn signed_decimal(x: int) -> Seq<char> {
    if x < 0 {
        seq!['-'] + decimal((-x) as nat)
    } else {
        decimal(x as nat)
    }
}

/// How a lattice position is written: `(a, b)`.
pub open spec fn pos_text(p: LatticePos) -> Seq<char> {
    seq!['('] + signed_decimal(p.a as int) + seq![',', ' '] + signed_decimal(p.b as int) + seq![')']
}

/// Whether `ch` is one of the characters `0` to `9`.
pub open spec fn is_digit(ch: char) -> bool {
    48 <= (ch as int) <= 57
}

/// The value of a string of decimal digits, read most significant first:
/// each digit is its character code less the code of `0`.
pub open spec fn digits_value(s: Seq<char>) -> int
    decreases s.len(),
{
    if s.len() == 0 {
        0
    } else {
        10 * digits_value(s.drop_last()) + ((s.last() as int) - 48)
    }
}

/// Whether `s` is a decimal numeral: one or more digits, after an optional
/// minus sign.
pub open spec fn is_numeral(s: Seq<char>) -> bool {
    let body = if s.len() > 0 && s[0] == '-' {
        s.drop_first()
    } else {
        s
    };
    &&& body.len() >= 1
    &&& forall|i: int| 0 <= i < body.len() ==> is_digit(#[trigger] body[i])
}

/// The value of a decimal numeral with an optional minus sign.
pub open spec fn numeral_value(s: Seq<char>) -> int {
    if s.len() > 0 && s[0] == '-' {
        -digits_value(s.drop_first())
    } else {
        digits_value(s)
    }
}

/// The decimal text of `n` reads back as `n`: it is made of digits only,
/// their value is `n`, and it has no leading zero.
pub proof fn lemma_decimal_reads_back(n: nat)
    ensures
        decimal(n).len() >= 1,
        forall|i: int| 0 <= i < decimal(n).len() ==> is_digit(#[trigger] decimal(n)[i]),
        digits_value(decimal(n)) == n,
        n > 0 ==> decimal(n)[0] != '0',
    decreases n,
{
    if n < 10 {
        let d = decimal(n);
        assert(d.drop_last() =~= Seq::<char>::empty());
        assert((d[0] as int) == 48 + n);
        assert(d.last() == d[0]);
        assert(digits_value(d.drop_last()) == 0);
        assert(digits_value(d) == 10 * digits_value(d.drop_last()) + ((d.last() as int) - 48));
    } else {
        lemma_decimal_reads_back(n / 10);
        let d = decimal(n);
        let q = decimal(n / 10);
        assert(d == q.push(digit_char((n % 10) as int)));
        assert(d.drop_last() =~= q);
        assert((d.last() as int) == 48 + n % 10);
        assert(d[0] == q[0]);
        assert(digits_value(d) == 10 * digits_value(q) + (n % 10));
        assert(10 * (n / 10) + n % 10 == n);
    }
}

/// The text of `x`, with a minus sign when negative, reads back as `x`.
pub proof fn lemma_signed_decimal_reads_back(x: int)
    ensures
        is_numeral(signed_decimal(x)),
        numeral_value(signed_decimal(x)) == x,
{
    if x < 0 {
        lemma_decimal_reads_back((-x) as nat);
        let t = signed_decimal(x);
        assert(t.drop_first() =~= decimal((-x) as nat));
    } else {
        lemma_decimal_reads_back(x as nat);
        let t = decimal(x as nat);
        assert(is_digit(t[0]));
        assert(t[0] != '-');
    }
}

/// The text of a lattice position reads back as the position: it is `(`,
/// a numeral of value `a`, `, `, a numeral of value `b`, and `)`.
pub proof fn lemma_pos_text_reads_back(p: LatticePos)
    ensures
        exists|u: Seq<char>, v: Seq<char>|
            #![trigger numeral_value(u), numeral_value(v)]
            pos_text(p) == seq!['('] + u + seq![',', ' '] + v + seq![')'] && is_numeral(u) && is_numeral(v)
                && numeral_value(u) == p.a && numeral_value(v) == p.b,
{
    let u = signed_decimal(p.a as int);
    let v = signed_decimal(p.b as int);
    lemma_signed_decimal_reads_back(p.a as int);
    lemma_signed_decimal_reads_back(p.b as int);
    assert(pos_text(p) == seq!['('] + u + seq![',', ' '] + v + seq![')']);
}

/// The text of decimal digit `d`.
fn digit_str(d: u64) -> (s: &'static str)
    requires
        d < 10,
    ensures
        s@ == seq![digit_char(d as int)],
{
    proof {
        reveal_strlit("0");
        reveal_strlit("1");
        reveal_strlit("2");
        reveal_strlit("3");
        reveal_strlit("4");
        reveal_strlit("5");
        reveal_strlit("6");
        reveal_strlit("7");
        reveal_strlit("8");
        reveal_strlit("9");
    }
    if d == 0 {
        "0"
    } else if d == 1 {
        "1"
    } else if d == 2 {
        "2"
    } else if d == 3 {
        "3"
    } else if d == 4 {
        "4"
    } else if d == 5 {
        "5"
    } else if d == 6 {
        "6"
    } else if d == 7 {
        "7"
    } else if d == 8 {
        "8"
    } else {
        "9"
    }
}

/// Append `n` in decimal to `s`.
fn push_decimal(s: &mut String, n: u64)
    ensures
        final(s)@ == old(s)@ + decimal(n as nat),
    decreases n,
{
    if n >= 10 {
        push_decimal(s, n / 10);
    }
    s.append(digit_str(n % 10));
    proof {
        if n >= 10 {
            assert(old(s)@ + decimal(n as nat) =~= old(s)@ + decimal((n / 10) as nat) + seq![digit_char((n % 10) as int)]);
        } else {
            assert(n % 10 == n);
        }
    }
}

/// Append `x` in decimal, with a minus sign when negative, to `s`.
fn push_signed(s: &mut String, x: i32)
    ensures
        final(s)@ == old(s)@ + signed_decimal(x as int),
{
    if x < 0 {
        s.append("-");
        proof {
            reveal_strlit("-");
        }
        let m: u64 = (-(x as i64)) as u64;
        push_decimal(s, m);
        proof {
            assert(old(s)@ + signed_decimal(x as int) =~= old(s)@ + seq!['-'] + decimal(m as nat));
        }
    } else {
        push_decimal(s, x as u64);
    }
}

/// A lattice position as a human-readable hex coordinate: `(a, b)`.
pub fn fmt_pos(p: LatticePos) -> (s: String)
    ensures
        s@ == pos_text(p),
        exists|u: Seq<char>, v: Seq<char>|
            #![trigger numeral_value(u), numeral_value(v)]
            s@ == seq!['('] + u + seq![',', ' '] + v + seq![')'] && is_numeral(u) && is_numeral(v) && numeral_value(u)
                == p.a && numeral_value(v) == p.b,
{
    let mut s = String::from_str("(");
    proof {
        reveal_strlit("(");
        reveal_strlit(", ");
        reveal_strlit(")");
    }
    push_signed(&mut s, p.a);
    s.append(", ");
    push_signed(&mut s, p.b);
    s.append(")");
    proof {
        assert(s@ =~= pos_text(p));
        lemma_pos_text_reads_back(p);
    }
    s
}

/// The separator between the modules of a cycle: ` → `.
pub open spec fn arrow() -> Seq<char> {
    seq![' ', '→', ' ']
}

/// The names of `c` joined by arrows.
pub open spec fn joined(c: Seq<Seq<char>>) -> Seq<char>
    decreases c.len(),
{
    if c.len() <= 1 {
        if c.len() == 0 {
            Seq::empty()
        } else {
            c[0]
        }
    } else {
        joined(c.drop_last()) + arrow() + c.last()
    }
}

/// A cycle written out: its modules joined by arrows, back to the first.
pub open spec fn cycle_text(c: Seq<Seq<char>>) -> Seq<char> {
    joined(c) + arrow() + c[0]
}

/// Each name of `c` with ` → ` in front of it.
pub open spec fn arrowed(c: Seq<Seq<char>>) -> Seq<Seq<char>> {
    c.map_values(|p: Seq<char>| seq![' ', '→', ' '] + p)
}

proof fn lemma_joined_flat(c: Seq<Seq<char>>)
    requires
        c.len() >= 1,
    ensures
        joined(c) == c[0] + arrowed(c.drop_first()).flatten_alt(),
    decreases c.len(),
{
    if c.len() == 1 {
        assert(arrowed(c.drop_first()) =~= Seq::<Seq<char>>::empty());
        assert(c[0] + Seq::<char>::empty() =~= c[0]);
    } else {
        let a = arrowed(c.drop_first());
        lemma_joined_flat(c.drop_last());
        assert(c.drop_last()[0] == c[0]);
        assert(a.drop_last() =~= arrowed(c.drop_last().drop_first()));
        assert(a.last() == seq![' ', '→', ' '] + c.last());
        assert(a.flatten_alt() == a.drop_last().flatten_alt() + a.last());
        assert(joined(c) =~= c[0] + a.flatten_alt());
    }
}

/// The text of a cycle lists every module of it, in order: the first, then
/// ` → ` and each following module in turn, then ` → ` and the first again.
pub proof fn lemma_cycle_text_lists_every_module(c: Seq<Seq<char>>)
    requires
        c.len() >= 1,
    ensures
        cycle_text(c) == c[0] + arrowed(c.drop_first()).flatten() + seq![' ', '→', ' '] + c[0],
{
    lemma_joined_flat(c);
    arrowed(c.drop_first()).lemma_flatten_and_flatten_alt_are_equivalent();
    assert(cycle_text(c) =~= c[0] + arrowed(c.drop_first()).flatten() + seq![' ', '→', ' '] + c[0]);
}

/// Write out a cycle of modules: their files joined by ` → `, ending with
/// the first again.
pub fn cycle_line(cycle: &Vec<crate::FileId>) -> (s: String)
    requires
        cycle@.len() >= 1,
    ensures
        s@ == cycle_text(crate::code_graph::paths(cycle@)),
        s@ == cycle@[0]@ + arrowed(crate::code_graph::paths(cycle@).drop_first()).flatten() + seq![' ', '→', ' ']
            + cycle@[0]@,
{
    let ghost ps = crate::code_graph::paths(cycle@);
    proof {
        reveal_strlit(" → ");
        assert(ps[0] == cycle@[0]@);
    }
    let mut s = String::from_str(cycle[0].0.as_str());
    proof {
        assert(ps.take(1).drop_last() =~= Seq::<Seq<char>>::empty());
        assert(s@ == joined(ps.take(1)));
    }
    let mut k: usize = 1;
    while k < cycle.len()
        invariant
            ps == crate::code_graph::paths(cycle@),
            1 <= k <= cycle@.len(),
            s@ == joined(ps.take(k as int)),
        decreases cycle@.len() - k,
    {
        s.append(" → ");
        s.append(cycle[k].0.as_str());
        proof {
            reveal_strlit(" → ");
            assert(ps[k as int] == cycle@[k as int]@);
            assert(ps.take(k + 1).drop_last() =~= ps.take(k as int));
            assert(ps.take(k + 1).last() == ps[k as int]);
        }
        k = k + 1;
    }
    s.append(" → ");
    s.append(cycle[0].0.as_str());
    proof {
        reveal_strlit(" → ");
        assert(ps.take(ps.len() as int) =~= ps);
        lemma_cycle_text_lists_every_module(ps);
    }
    s
}

} // verus!
