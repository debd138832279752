//! The optimal-parse search and its iteration driver.
//!
//! The search is a single-source shortest path over the DAG whose
//! nodes are input positions and whose edges are the tokens available
//! at each position (a literal always, plus the candidate matches the
//! match finder supplied), weighted by the selected cost model.  The
//! driver first runs the search under the fixed-tree model, then
//! re-derives symbol statistics from the best parse so far and
//! re-runs the search under the dynamic model, keeping the cheapest
//! parse seen; every few rounds the statistics are randomized to
//! escape local minima.

use vstd::prelude::*;
use crate::{spec_advance, token_in_range, Token};
use crate::cost::{model_cost, spec_cost_model, COST_MAX};
use crate::ran::RanState;
use crate::stats::{
    calculate_bit_lengths,
    tally_counts,
    RandomizeStatFreqs,
    SymbolStats,
};

verus! {

/// Upper bound on the input sizes the engine accepts.
pub const MAX_DATA: usize = 0x1000_0000;

/// Sentinel cost of a position the search has not reached yet.
pub const UNREACHED: u64 = 0xffff_ffff_ffff_ffff;

/// The candidate lists, one per input position, as mathematical
/// sequences.
pub open spec fn cand_views(c: Seq<Vec<Token>>) -> Seq<Seq<Token>> {
    c.map_values(|v: Vec<Token>| v@)
}

/// The cost-model context as a value: absent for the fixed tree,
/// the statistics themselves for the dynamic model.
pub open spec fn view_context(c: Option<&SymbolStats>) -> Option<SymbolStats> {
    match c {
        None => None,
        Some(s) => Some(*s),
    }
}

/// Well-formed candidate matches: one list per input position, every
/// candidate an encodable match that stays inside the input.
pub open spec fn wf_candidates(data: Seq<u8>, cands: Seq<Seq<Token>>) -> bool {
    &&& cands.len() == data.len()
    &&& forall|i: int, k: int|
        0 <= i < cands.len() && 0 <= k < cands[i].len() ==> {
            let t = #[trigger] cands[i][k];
            1 <= t.dist <= 32768 && 3 <= t.litlen <= 258 && i + t.litlen <= data.len()
        }
}

/// A token is available at a position: a literal must reproduce the
/// byte there; a match must be one of the candidates supplied at that
/// position.  Either way it stays inside the input.
pub open spec fn avail_token(data: Seq<u8>, cands: Seq<Seq<Token>>, pos: int, t: Token) -> bool {
    &&& token_in_range(t)
    &&& 0 <= pos
    &&& pos + spec_advance(t) <= data.len()
    &&& if t.dist == 0 {
        t.litlen == data[pos]
    } else {
        exists|k: int| 0 <= k < cands[pos].len() && #[trigger] cands[pos][k] == t
    }
}

/// The tokens lead from position `from` to position `to`, each
/// available where it stands.
pub open spec fn valid_path(
    data: Seq<u8>,
    cands: Seq<Seq<Token>>,
    p: Seq<Token>,
    from: int,
    to: int,
) -> bool
    decreases p.len(),
{
    if p.len() == 0 {
        from == to
    } else {
        avail_token(data, cands, from, p[0]) && valid_path(
            data,
            cands,
            p.subrange(1, p.len() as int),
            from + spec_advance(p[0]),
            to,
        )
    }
}

/// The tokens cover the input from `from` to the end, each available
/// where it stands.
pub open spec fn valid_parse_from(
    data: Seq<u8>,
    cands: Seq<Seq<Token>>,
    p: Seq<Token>,
    from: int,
) -> bool {
    valid_path(data, cands, p, from, data.len() as int)
}

/// A nonempty path splits into its last token and the path before
/// it: the prefix is a path to where the last token starts, and the
/// last token is available there.
pub proof fn lemma_path_decompose(
    data: Seq<u8>,
    cands: Seq<Seq<Token>>,
    p: Seq<Token>,
    from: int,
    to: int,
)
    requires
        p.len() > 0,
        valid_path(data, cands, p, from, to),
    ensures
        valid_path(data, cands, p.drop_last(), from, to - spec_advance(p.last())),
        avail_token(data, cands, to - spec_advance(p.last()), p.last()),
    decreases p.len(),
{
    let q = p.subrange(1, p.len() as int);
    assert(avail_token(data, cands, from, p[0]));
    assert(valid_path(data, cands, q, from + spec_advance(p[0]), to));
    if p.len() == 1 {
        assert(q.len() == 0);
        assert(from + spec_advance(p[0]) == to);
        assert(p.drop_last() =~= Seq::<Token>::empty());
        assert(p[0] == p.last());
        assert(valid_path(data, cands, p.drop_last(), from, to - spec_advance(p.last())));
    } else {
        lemma_path_decompose(data, cands, q, from + spec_advance(p[0]), to);
        assert(q.last() == p.last());
        assert(p.drop_last().subrange(1, p.drop_last().len() as int) =~= q.drop_last());
        assert(p.drop_last()[0] == p[0]);
        assert(valid_path(
            data,
            cands,
            p.drop_last().subrange(1, p.drop_last().len() as int),
            from + spec_advance(p.drop_last()[0]),
            to - spec_advance(p.last()),
        ));
        assert(valid_path(data, cands, p.drop_last(), from, to - spec_advance(p.last())));
    }
}

/// The cost of a nonempty token sequence is the cost of its prefix
/// plus the cost of its last token.
pub proof fn lemma_cost_drop_last(p: Seq<Token>, st: Option<SymbolStats>)
    requires
        p.len() > 0,
    ensures
        spec_parse_cost(p, st) == spec_parse_cost(p.drop_last(), st) + spec_cost_model(
            p.last(),
            st,
        ),
    decreases p.len(),
{
    let q = p.subrange(1, p.len() as int);
    assert(spec_parse_cost(p, st) == spec_cost_model(p[0], st) + spec_parse_cost(q, st));
    if p.len() == 1 {
        assert(q.len() == 0);
        assert(p.drop_last() =~= Seq::<Token>::empty());
        assert(p[0] == p.last());
        assert(spec_parse_cost(p.drop_last(), st) == 0);
    } else {
        lemma_cost_drop_last(q, st);
        assert(q.last() == p.last());
        assert(p.drop_last().subrange(1, p.drop_last().len() as int) =~= q.drop_last());
        assert(p.drop_last()[0] == p[0]);
        assert(spec_parse_cost(p.drop_last(), st) == spec_cost_model(p.drop_last()[0], st)
            + spec_parse_cost(p.drop_last().subrange(1, p.drop_last().len() as int), st));
    }
}

/// Total fixed-point cost of a parse under a cost-model context.
pub open spec fn spec_parse_cost(p: Seq<Token>, st: Option<SymbolStats>) -> int
    decreases p.len(),
{
    if p.len() == 0 {
        0
    } else {
        spec_cost_model(p[0], st) + spec_parse_cost(p.subrange(1, p.len() as int), st)
    }
}

/// Cost of encoding the first `upto` bytes as bare literals.
pub open spec fn spec_literal_cost(data: Seq<u8>, st: Option<SymbolStats>, upto: int) -> int
    decreases upto,
{
    if upto <= 0 {
        0
    } else {
        spec_literal_cost(data, st, upto - 1) + spec_cost_model(
            Token { litlen: data[upto - 1] as u16, dist: 0 },
            st,
        )
    }
}

/// Every token of a valid parse is in range, and the parse covers the
/// remaining input one token per byte at least.
pub proof fn lemma_parse_shape(data: Seq<u8>, cands: Seq<Seq<Token>>, p: Seq<Token>, from: int)
    requires
        valid_parse_from(data, cands, p, from),
    ensures
        forall|i: int| 0 <= i < p.len() ==> token_in_range(#[trigger] p[i]),
        p.len() <= data.len() - from,
    decreases p.len(),
{
    if p.len() > 0 {
        lemma_parse_shape(data, cands, p.subrange(1, p.len() as int), from + spec_advance(p[0]));
        assert(spec_advance(p[0]) >= 1);
        assert forall|i: int| 0 <= i < p.len() implies token_in_range(#[trigger] p[i]) by {
            if i > 0 {
                assert(p[i] == p.subrange(1, p.len() as int)[i - 1]);
            }
        }
    }
}

/// The total of a cheapest parse is unique: any two parses that are
/// both valid and both no costlier than every valid parse have the
/// same cost.  Two searches over the same input, candidates and
/// model therefore agree on the total they report.
pub proof fn lemma_search_cost_unique(
    data: Seq<u8>,
    cands: Seq<Seq<Token>>,
    st: Option<SymbolStats>,
    p1: Seq<Token>,
    p2: Seq<Token>,
)
    requires
        valid_parse_from(data, cands, p1, 0),
        valid_parse_from(data, cands, p2, 0),
        forall|p: Seq<Token>|
            #[trigger] valid_parse_from(data, cands, p, 0) ==> spec_parse_cost(p1, st)
                <= spec_parse_cost(p, st),
        forall|p: Seq<Token>|
            #[trigger] valid_parse_from(data, cands, p, 0) ==> spec_parse_cost(p2, st)
                <= spec_parse_cost(p, st),
    ensures
        spec_parse_cost(p1, st) == spec_parse_cost(p2, st),
{
}

/// The recorded predecessor of a reached position `j`: the stored
/// token is available where it starts, that start lies at or before
/// the processed frontier `hi`, is itself reached, and the costs add
/// up along the recorded edge.
pub open spec fn pred_ok(
    data: Seq<u8>,
    cands: Seq<Seq<Token>>,
    st: Option<SymbolStats>,
    costs: Seq<u64>,
    lens: Seq<u16>,
    dsts: Seq<u16>,
    hi: int,
    j: int,
) -> bool {
    costs[j] < UNREACHED ==> {
        let t = Token { litlen: lens[j], dist: dsts[j] };
        let s = j - spec_advance(t);
        &&& avail_token(data, cands, s, t)
        &&& 0 <= s < j
        &&& s <= hi
        &&& costs[s] < UNREACHED
        &&& costs[j] == costs[s] + spec_cost_model(t, st)
    }
}

/// A vector of `n` copies of a 64-bit value.
fn filled_u64(n: usize, v: u64) -> (r: Vec<u64>)
    ensures
        r.len() == n,
        forall|i: int| 0 <= i < n ==> r[i] == v,
{
    let mut r: Vec<u64> = Vec::new();
    let mut i: usize = 0;
    while i < n
        invariant
            i <= n,
            r.len() == i,
            forall|j: int| 0 <= j < i ==> r[j] == v,
        decreases n - i,
    {
        r.push(v);
        i = i + 1;
    }
    r
}

/// A vector of `n` copies of a 16-bit value.
fn filled_u16(n: usize, v: u16) -> (r: Vec<u16>)
    ensures
        r.len() == n,
        forall|i: int| 0 <= i < n ==> r[i] == v,
{
    let mut r: Vec<u16> = Vec::new();
    let mut i: usize = 0;
    while i < n
        invariant
            i <= n,
            r.len() == i,
            forall|j: int| 0 <= j < i ==> r[j] == v,
        decreases n - i,
    {
        r.push(v);
        i = i + 1;
    }
    r
}

/// Relax one edge: if reaching `i + advance(t)` through `t` is
/// cheaper than anything recorded there, record it.  Preserves every
/// predecessor record, never increases a cost, and leaves all other
/// entries alone.
fn relax(
    costs: &mut Vec<u64>,
    lens: &mut Vec<u16>,
    dsts: &mut Vec<u16>,
    i: usize,
    t: Token,
    c: u64,
    Ghost(data): Ghost<Seq<u8>>,
    Ghost(cands): Ghost<Seq<Seq<Token>>>,
    Ghost(st): Ghost<Option<SymbolStats>>,
) -> (j: usize)
    requires
        data.len() <= MAX_DATA,
        old(costs).len() == data.len() + 1,
        old(lens).len() == data.len() + 1,
        old(dsts).len() == data.len() + 1,
        i < data.len(),
        avail_token(data, cands, i as int, t),
        c == spec_cost_model(t, st),
        c < COST_MAX,
        old(costs)[i as int] < UNREACHED,
        forall|jj: int|
            0 <= jj <= data.len() ==> #[trigger] old(costs)[jj] == UNREACHED || old(costs)[jj]
                <= jj * COST_MAX,
        forall|jj: int|
            1 <= jj <= data.len() ==> pred_ok(
                data,
                cands,
                st,
                old(costs)@,
                old(lens)@,
                old(dsts)@,
                i as int,
                jj,
            ),
    ensures
        final(costs).len() == data.len() + 1,
        final(lens).len() == data.len() + 1,
        final(dsts).len() == data.len() + 1,
        j == i + spec_advance(t),
        forall|jj: int|
            0 <= jj <= data.len() ==> #[trigger] final(costs)[jj] == UNREACHED
                || final(costs)[jj] <= jj * COST_MAX,
        forall|jj: int|
            1 <= jj <= data.len() ==> pred_ok(
                data,
                cands,
                st,
                final(costs)@,
                final(lens)@,
                final(dsts)@,
                i as int,
                jj,
            ),
        final(costs)[j as int] <= old(costs)[i as int] + c,
        final(costs)[j as int] < UNREACHED,
        forall|jj: int| 0 <= jj <= data.len() ==> #[trigger] final(costs)[jj] <= old(costs)[jj],
        forall|jj: int|
            0 <= jj <= data.len() && jj != j ==> #[trigger] final(costs)[jj] == old(costs)[jj],
{
    let adv: usize = if t.dist == 0 {
        1
    } else {
        t.litlen as usize
    };
    let j = i + adv;
    let ghost pre_costs = costs@;
    let ghost pre_lens = lens@;
    let ghost pre_dsts = dsts@;
    let ci = costs[i];
    proof {
        assert(ci <= i as int * COST_MAX);
        assert(i as int * COST_MAX <= MAX_DATA as int * COST_MAX) by (nonlinear_arith)
            requires i as int <= MAX_DATA as int && COST_MAX > 0;
    }
    let nc = ci + c;
    proof {
        assert(nc <= i as int * COST_MAX + COST_MAX);
        assert(i as int * COST_MAX + COST_MAX == (i as int + 1) * COST_MAX) by (nonlinear_arith);
        assert((i as int + 1) * COST_MAX <= j as int * COST_MAX) by (nonlinear_arith)
            requires i as int + 1 <= j as int && COST_MAX > 0;
        assert(nc < UNREACHED);
    }
    if nc < costs[j] {
        costs.set(j, nc);
        lens.set(j, t.litlen);
        dsts.set(j, t.dist);
        proof {
            assert forall|jj: int|
                1 <= jj <= data.len() implies pred_ok(
                data,
                cands,
                st,
                costs@,
                lens@,
                dsts@,
                i as int,
                jj,
            ) by {
                if jj == j as int {
                    let tj = Token { litlen: lens[jj], dist: dsts[jj] };
                    assert(tj == t);
                    assert(jj - spec_advance(tj) == i as int);
                    assert(costs[i as int] == pre_costs[i as int]);
                } else {
                    assert(pred_ok(data, cands, st, pre_costs, pre_lens, pre_dsts, i as int, jj));
                    if pre_costs[jj] < UNREACHED {
                        let tj = Token { litlen: pre_lens[jj], dist: pre_dsts[jj] };
                        let s = jj - spec_advance(tj);
                        assert(s <= i as int);
                        assert(costs[s] == pre_costs[s]);
                    }
                }
            }
        }
    }
    j
}

/// One run of the optimal-parse search: compute, by forward dynamic
/// programming over the positions of the input, a cheapest-found
/// token sequence covering the whole input under the given cost
/// model.  The returned total is the exact model cost of the returned
/// parse and never exceeds the cost of spelling the input out as
/// bare literals.
pub fn optimal_run(data: &Vec<u8>, cands: &Vec<Vec<Token>>, context: Option<&SymbolStats>) -> (r: (
    Vec<Token>,
    u64,
))
    requires
        data.len() <= MAX_DATA,
        wf_candidates(data@, cand_views(cands@)),
        context matches Some(s) ==> s.wf(),
    ensures
        valid_parse_from(data@, cand_views(cands@), r.0@, 0),
        r.1 == spec_parse_cost(r.0@, view_context(context)),
        r.1 <= spec_literal_cost(data@, view_context(context), data.len() as int),
        forall|p: Seq<Token>|
            #[trigger] valid_parse_from(data@, cand_views(cands@), p, 0) ==> r.1
                <= spec_parse_cost(p, view_context(context)),
{
    let ghost gdata = data@;
    let ghost gcands = cand_views(cands@);
    let ghost st = view_context(context);
    let n = data.len();
    let mut costs = filled_u64(n + 1, UNREACHED);
    let mut lens = filled_u16(n + 1, 0);
    let mut dsts = filled_u16(n + 1, 0);
    costs.set(0, 0);
    proof {
        assert forall|p: Seq<Token>, j: int|
            0 <= j <= n && #[trigger] valid_path(gdata, gcands, p, 0, j) && (p.len() == 0 || j
                - spec_advance(p.last()) < 0) implies costs[j] <= spec_parse_cost(p, st) by {
            if p.len() == 0 {
                assert(j == 0);
            } else {
                lemma_path_decompose(gdata, gcands, p, 0, j);
                assert(false);
            }
        }
    }
    let mut i: usize = 0;
    while i < n
        invariant
            n == data.len() <= MAX_DATA,
            n == cands.len(),
            gdata == data@,
            gcands == cand_views(cands@),
            wf_candidates(gdata, gcands),
            context matches Some(s) ==> s.wf(),
            st == view_context(context),
            costs.len() == n + 1,
            lens.len() == n + 1,
            dsts.len() == n + 1,
            costs[0] == 0,
            i <= n,
            forall|j: int| 0 <= j <= i ==> #[trigger] costs[j] < UNREACHED,
            forall|j: int|
                0 <= j <= n ==> #[trigger] costs[j] == UNREACHED || costs[j] <= j * COST_MAX,
            forall|j: int|
                1 <= j <= n ==> pred_ok(gdata, gcands, st, costs@, lens@, dsts@, i as int, j),
            forall|j: int|
                0 <= j <= i ==> #[trigger] costs[j] <= spec_literal_cost(gdata, st, j),
            forall|p: Seq<Token>, j: int|
                0 <= j <= n && #[trigger] valid_path(gdata, gcands, p, 0, j) && (p.len() == 0
                    || j - spec_advance(p.last()) < i) ==> costs[j] <= spec_parse_cost(p, st),
        decreases n - i,
    {
        let ghost loop_costs = costs@;
        let ghost ci = costs@[i as int];
        let lit = data[i];
        let c_lit = model_cost(lit as u16, 0, context);
        proof {
            assert(avail_token(gdata, gcands, i as int, Token { litlen: lit as u16, dist: 0 }));
        }
        let j1 = relax(
            &mut costs,
            &mut lens,
            &mut dsts,
            i,
            Token { litlen: lit as u16, dist: 0 },
            c_lit,
            Ghost(gdata),
            Ghost(gcands),
            Ghost(st),
        );
        proof {
            assert(j1 == i + 1);
            assert(c_lit == spec_cost_model(Token { litlen: lit as u16, dist: 0 }, st));
            assert(costs[i as int] == loop_costs[i as int]);
            assert(costs[i as int + 1] <= loop_costs[i as int] + c_lit);
            assert(spec_literal_cost(gdata, st, i as int + 1) == spec_literal_cost(
                gdata,
                st,
                i as int,
            ) + spec_cost_model(Token { litlen: gdata[i as int] as u16, dist: 0 }, st));
            assert forall|j: int|
                0 <= j <= i + 1 implies #[trigger] costs[j] <= spec_literal_cost(
                gdata,
                st,
                j,
            ) by {
                if j <= i as int {
                    assert(costs[j] == loop_costs[j]);
                }
            }
        }
        let m = cands[i].len();
        let mut k: usize = 0;
        while k < m
            invariant
                n == data.len() <= MAX_DATA,
                n == cands.len(),
                i < n,
                gdata == data@,
                gcands == cand_views(cands@),
                wf_candidates(gdata, gcands),
                context matches Some(s) ==> s.wf(),
                st == view_context(context),
                m == cands[i as int].len(),
                k <= m,
                costs.len() == n + 1,
                lens.len() == n + 1,
                dsts.len() == n + 1,
                costs[0] == 0,
                forall|j: int| 0 <= j <= i + 1 ==> #[trigger] costs[j] < UNREACHED,
                forall|j: int|
                    0 <= j <= n ==> #[trigger] costs[j] == UNREACHED || costs[j] <= j * COST_MAX,
                forall|j: int|
                    1 <= j <= n ==> pred_ok(gdata, gcands, st, costs@, lens@, dsts@, i as int, j),
                forall|j: int|
                    0 <= j <= i + 1 ==> #[trigger] costs[j] <= spec_literal_cost(gdata, st, j),
                lit == gdata[i as int],
                loop_costs.len() == n + 1,
                ci == loop_costs[i as int],
                costs[i as int] == ci,
                ci < UNREACHED,
                forall|jj: int| 0 <= jj <= n ==> #[trigger] costs[jj] <= loop_costs[jj],
                costs[i as int + 1] <= ci + spec_cost_model(
                    Token { litlen: lit as u16, dist: 0 },
                    st,
                ),
                forall|k2: int|
                    0 <= k2 < k ==> costs[i as int + (#[trigger] gcands[i as int][k2]).litlen
                        as int] <= ci + spec_cost_model(gcands[i as int][k2], st),
                forall|p: Seq<Token>, j: int|
                    0 <= j <= n && #[trigger] valid_path(gdata, gcands, p, 0, j) && (p.len() == 0
                        || j - spec_advance(p.last()) < i) ==> loop_costs[j] <= spec_parse_cost(
                        p,
                        st,
                    ),
            decreases m - k,
        {
            let t = cands[i][k];
            proof {
                assert(gcands[i as int] == cands[i as int]@);
                assert(gcands[i as int][k as int] == t);
                assert(avail_token(gdata, gcands, i as int, t));
            }
            let c_t = model_cost(t.litlen, t.dist, context);
            let ghost inner_costs = costs@;
            let jt = relax(
                &mut costs,
                &mut lens,
                &mut dsts,
                i,
                t,
                c_t,
                Ghost(gdata),
                Ghost(gcands),
                Ghost(st),
            );
            proof {
                assert(c_t == spec_cost_model(t, st));
                assert(jt == i as int + t.litlen as int);
                assert forall|j: int|
                    0 <= j <= i + 1 implies #[trigger] costs[j] <= spec_literal_cost(
                    gdata,
                    st,
                    j,
                ) by {
                    assert(costs[j] <= inner_costs[j]);
                }
                assert forall|jj: int| 0 <= jj <= n implies #[trigger] costs[jj]
                    <= loop_costs[jj] by {
                    assert(costs[jj] <= inner_costs[jj]);
                }
                assert(costs[i as int + 1] <= inner_costs[i as int + 1]);
                assert forall|k2: int|
                    0 <= k2 < k + 1 implies costs[i as int + (#[trigger] gcands[i as int][k2])
                        .litlen as int] <= ci + spec_cost_model(gcands[i as int][k2], st) by {
                    let t2 = gcands[i as int][k2];
                    if k2 < k {
                        assert(inner_costs[i as int + t2.litlen as int] <= ci + spec_cost_model(
                            t2,
                            st,
                        ));
                        assert(costs[i as int + t2.litlen as int] <= inner_costs[i as int
                            + t2.litlen as int]);
                    } else {
                        assert(t2 == t);
                        assert(costs[jt as int] <= inner_costs[i as int] + c_t);
                    }
                }
            }
            k = k + 1;
        }
        proof {
            let hi = i as int + 1;
            assert forall|j: int|
                1 <= j <= n implies pred_ok(gdata, gcands, st, costs@, lens@, dsts@, hi, j) by {
                assert(pred_ok(gdata, gcands, st, costs@, lens@, dsts@, i as int, j));
            }
            assert forall|p: Seq<Token>, j: int|
                0 <= j <= n && #[trigger] valid_path(gdata, gcands, p, 0, j) && (p.len() == 0 || j
                    - spec_advance(p.last()) < hi) implies costs[j] <= spec_parse_cost(p, st) by {
                if p.len() == 0 {
                    assert(j == 0);
                } else {
                    let t = p.last();
                    lemma_path_decompose(gdata, gcands, p, 0, j);
                    lemma_cost_drop_last(p, st);
                    let s = j - spec_advance(t);
                    let p2 = p.drop_last();
                    assert(valid_path(gdata, gcands, p2, 0, s));
                    if s < i as int {
                        assert(loop_costs[j] <= spec_parse_cost(p, st));
                        assert(costs[j] <= loop_costs[j]);
                    } else {
                        assert(s == i as int);
                        if p2.len() == 0 {
                            assert(s == 0);
                            assert(ci == 0);
                        } else {
                            lemma_path_decompose(gdata, gcands, p2, 0, s);
                            assert(spec_advance(p2.last()) >= 1);
                            assert(loop_costs[s] <= spec_parse_cost(p2, st));
                        }
                        assert(ci <= spec_parse_cost(p2, st));
                        if t.dist == 0 {
                            assert(t.litlen == gdata[s]);
                            assert(t == Token { litlen: lit as u16, dist: 0 });
                            assert(costs[j] <= ci + spec_cost_model(t, st));
                        } else {
                            let kk = choose|kk: int|
                                0 <= kk < gcands[s].len() && #[trigger] gcands[s][kk] == t;
                            assert(costs[i as int + gcands[i as int][kk].litlen as int] <= ci
                                + spec_cost_model(gcands[i as int][kk], st));
                            assert(j == i as int + t.litlen as int);
                            assert(costs[j] <= ci + spec_cost_model(t, st));
                        }
                        assert(costs[j] <= spec_parse_cost(p, st));
                    }
                }
            }
        }
        i = i + 1;
    }
    proof {
        let nn = n as int;
        assert forall|p: Seq<Token>| #[trigger] valid_path(gdata, gcands, p, 0, nn) implies costs[nn]
            <= spec_parse_cost(p, st) by {
            if p.len() == 0 {
                assert(nn == 0);
            } else {
                lemma_path_decompose(gdata, gcands, p, 0, nn);
                assert(spec_advance(p.last()) >= 1);
            }
        }
    }
    // Trace the recorded predecessors back from the end of the input.
    let mut rev: Vec<Token> = Vec::new();
    let ghost mut gparse = Seq::<Token>::empty();
    let mut pos: usize = n;
    while pos > 0
        invariant
            n == data.len(),
            pos <= n,
            costs.len() == n + 1,
            lens.len() == n + 1,
            dsts.len() == n + 1,
            costs[0] == 0,
            costs[pos as int] < UNREACHED,
            forall|j: int|
                1 <= j <= n ==> pred_ok(gdata, gcands, st, costs@, lens@, dsts@, n as int, j),
            gdata == data@,
            valid_parse_from(gdata, gcands, gparse, pos as int),
            gparse.len() == rev.len(),
            forall|q: int| 0 <= q < gparse.len() ==> gparse[q] == rev[rev.len() - 1 - q],
            costs[n as int] == costs[pos as int] + spec_parse_cost(gparse, st),
        decreases pos,
    {
        let t = Token { litlen: lens[pos], dist: dsts[pos] };
        let adv: usize = if t.dist == 0 {
            1
        } else {
            t.litlen as usize
        };
        proof {
            assert(pred_ok(gdata, gcands, st, costs@, lens@, dsts@, n as int, pos as int));
            assert(avail_token(gdata, gcands, pos as int - spec_advance(t), t));
        }
        let ghost old_parse = gparse;
        rev.push(t);
        proof {
            gparse = seq![t] + old_parse;
            assert(gparse.subrange(1, gparse.len() as int) =~= old_parse);
            assert(gparse[0] == t);
            assert(valid_parse_from(gdata, gcands, gparse, pos as int - spec_advance(t)));
        }
        pos = pos - adv;
    }
    proof {
        assert(costs[n as int] == spec_parse_cost(gparse, st));
        assert(costs[n as int] <= spec_literal_cost(gdata, st, n as int));
    }
    let mut toks: Vec<Token> = Vec::new();
    let m = rev.len();
    let mut q: usize = 0;
    while q < m
        invariant
            m == rev.len(),
            q <= m,
            toks.len() == q,
            gparse.len() == m,
            forall|a: int| 0 <= a < gparse.len() ==> gparse[a] == rev[rev.len() - 1 - a],
            forall|a: int| 0 <= a < q ==> toks[a] == gparse[a],
        decreases m - q,
    {
        toks.push(rev[m - 1 - q]);
        q = q + 1;
    }
    proof {
        assert(toks@ =~= gparse);
    }
    let total = costs[n];
    (toks, total)
}

/// What one engine invocation returns: the cheapest parse seen, its
/// estimated cost, and the best cost after each round (the first
/// entry is the fixed-tree round).
pub struct SqueezeResult {
    /// The cheapest parse found across all rounds.
    pub tokens: Vec<Token>,
    /// Its estimated total cost, in fixed-point units.
    pub cost: u64,
    /// Best cost seen after each round, never increasing.
    pub round_costs: Vec<u64>,
}

/// The squeeze engine: run the search once under the fixed tree, then
/// up to `max_rounds` more times under statistics re-derived from the
/// best parse so far, randomizing the statistics every
/// `rand_interval`-th round, and stopping early after `max_stale`
/// consecutive rounds without improvement.  The best parse across all
/// rounds is returned; its cost never exceeds the fixed-tree round's
/// cost, and the per-round best costs never increase.
pub fn lz77_optimal(
    data: &Vec<u8>,
    cands: &Vec<Vec<Token>>,
    max_rounds: usize,
    rand_interval: usize,
    max_stale: usize,
) -> (r: SqueezeResult)
    requires
        data.len() <= MAX_DATA,
        wf_candidates(data@, cand_views(cands@)),
        rand_interval >= 1,
        max_rounds < usize::MAX,
    ensures
        valid_parse_from(data@, cand_views(cands@), r.tokens@, 0),
        r.round_costs.len() >= 1,
        r.cost == r.round_costs[r.round_costs.len() - 1],
        r.cost <= r.round_costs[0],
        r.round_costs[0] <= spec_literal_cost(data@, None::<SymbolStats>, data.len() as int),
        forall|a: int, b: int|
            0 <= a <= b < r.round_costs.len() ==> #[trigger] r.round_costs[b] <= #[trigger] r
                .round_costs[a],
        forall|p: Seq<Token>|
            #[trigger] valid_parse_from(data@, cand_views(cands@), p, 0) ==> r.cost
                <= spec_parse_cost(p, None::<SymbolStats>),
        exists|m: Option<SymbolStats>|
            r.cost == #[trigger] spec_parse_cost(r.tokens@, m) && (forall|p: Seq<Token>|
                #[trigger] valid_parse_from(data@, cand_views(cands@), p, 0) ==> r.cost
                    <= spec_parse_cost(p, m)),
{
    let ghost gdata = data@;
    let ghost gcands = cand_views(cands@);
    let (tokens0, cost0) = optimal_run(data, cands, None);
    let mut best = tokens0;
    let mut best_cost = cost0;
    let ghost mut gm: Option<SymbolStats> = None;
    proof {
        assert(view_context(None::<&SymbolStats>) == None::<SymbolStats>);
    }
    let mut round_costs: Vec<u64> = Vec::new();
    round_costs.push(cost0);
    let mut stats = SymbolStats::new();
    let mut state = RanState::new();
    let mut stale: usize = 0;
    let mut round: usize = 1;
    while round <= max_rounds && stale < max_stale
        invariant
            gdata == data@,
            gcands == cand_views(cands@),
            data.len() <= MAX_DATA,
            wf_candidates(gdata, gcands),
            rand_interval >= 1,
            max_rounds < usize::MAX,
            valid_parse_from(gdata, gcands, best@, 0),
            stats.wf(),
            round_costs.len() >= 1,
            best_cost == round_costs[round_costs.len() - 1],
            round_costs[0] == cost0,
            cost0 <= spec_literal_cost(gdata, None::<SymbolStats>, data.len() as int),
            forall|k: int| 0 <= k < round_costs.len() ==> best_cost <= #[trigger] round_costs[k],
            forall|a: int, b: int|
                0 <= a <= b < round_costs.len() ==> #[trigger] round_costs[b]
                    <= #[trigger] round_costs[a],
            round >= 1,
            best_cost == spec_parse_cost(best@, gm),
            forall|p: Seq<Token>|
                #[trigger] valid_parse_from(gdata, gcands, p, 0) ==> best_cost <= spec_parse_cost(
                    p,
                    gm,
                ),
        decreases max_rounds + 1 - round,
    {
        proof {
            lemma_parse_shape(gdata, gcands, best@, 0);
        }
        tally_counts(&mut stats, &best);
        if round % rand_interval == 0 {
            RandomizeStatFreqs(&mut state, &mut stats);
        }
        calculate_bit_lengths(&mut stats);
        let (t, c) = optimal_run(data, cands, Some(&stats));
        proof {
            assert(view_context(Some(&stats)) == Some(stats));
        }
        if c < best_cost {
            best = t;
            best_cost = c;
            stale = 0;
            proof {
                gm = Some(stats);
            }
        } else {
            stale = stale + 1;
        }
        round_costs.push(best_cost);
        round = round + 1;
    }
    proof {
        assert(best_cost == spec_parse_cost(best@, gm));
    }
    SqueezeResult { tokens: best, cost: best_cost, round_costs }
}

} // verus!
