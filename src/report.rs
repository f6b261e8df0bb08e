use vstd::prelude::*;

use crate::monitor::ConfirmationResult;
use crate::text::{
    dec, lemma_text_lt_irreflexive, lemma_text_lt_total, lemma_text_lt_transitive, push_decimal, text_less, text_lt,
};

verus! {

/// One endpoint's name together with the confirmations it reported.
pub type NodeConfirmations = (String, Vec<ConfirmationResult>);

/// The character view of a list of strings.
pub open spec fn texts(v: Seq<String>) -> Seq<Seq<char>> {
    v.map_values(|s: String| s@)
}

/// The observations of one endpoint: (endpoint, signature, timestamp).
pub open spec fn node_observations(e: NodeConfirmations) -> Seq<(Seq<char>, Seq<char>, u64)> {
    e.1@.map_values(|r: ConfirmationResult| (e.0@, r.signature@, r.timestamp_us))
}

/// Every observation of the input, endpoint by endpoint, in input order.
pub open spec fn observations(input: Seq<NodeConfirmations>) -> Seq<(Seq<char>, Seq<char>, u64)>
    decreases input.len(),
{
    if input.len() == 0 {
        Seq::empty()
    } else {
        observations(input.drop_last()) + node_observations(input.last())
    }
}

/// `s` with `x` put before the first element that is not smaller than it,
/// unless that element equals `x`.
pub open spec fn insert_text(x: Seq<char>, s: Seq<Seq<char>>) -> Seq<Seq<char>>
    decreases s.len(),
{
    if s.len() == 0 {
        seq![x]
    } else if x == s[0] {
        s
    } else if text_lt(x, s[0]) {
        seq![x] + s
    } else {
        seq![s[0]] + insert_text(x, s.drop_first())
    }
}

/// The distinct elements of `xs` in ascending order.
pub open spec fn sorted_set(xs: Seq<Seq<char>>) -> Seq<Seq<char>>
    decreases xs.len(),
{
    if xs.len() == 0 {
        Seq::empty()
    } else {
        insert_text(xs.last(), sorted_set(xs.drop_last()))
    }
}

/// The endpoint names of the input, as listed.
pub open spec fn endpoint_names(input: Seq<NodeConfirmations>) -> Seq<Seq<char>> {
    input.map_values(|e: NodeConfirmations| e.0@)
}

/// The signature of each observation.
pub open spec fn observed_signatures(obs: Seq<(Seq<char>, Seq<char>, u64)>) -> Seq<Seq<char>> {
    obs.map_values(|o: (Seq<char>, Seq<char>, u64)| o.1)
}

/// The endpoint names of the input, distinct and ascending.
pub open spec fn node_names(input: Seq<NodeConfirmations>) -> Seq<Seq<char>> {
    sorted_set(endpoint_names(input))
}

/// Every signature observed anywhere in the input, distinct and ascending.
pub open spec fn signatures(input: Seq<NodeConfirmations>) -> Seq<Seq<char>> {
    sorted_set(observed_signatures(observations(input)))
}

proof fn lemma_insert_text_at(x: Seq<char>, s: Seq<Seq<char>>, p: int)
    requires
        0 <= p <= s.len(),
        forall|q: int| 0 <= q < p ==> x != s[q] && !text_lt(x, s[q]),
        p < s.len() ==> x == s[p] || text_lt(x, s[p]),
    ensures
        insert_text(x, s) == (if p < s.len() && x == s[p] {
            s
        } else {
            s.take(p).push(x) + s.skip(p)
        }),
    decreases p,
{
    if p == 0 {
        if s.len() == 0 {
            assert(s.take(p).push(x) + s.skip(p) =~= seq![x]);
        } else if x != s[0] {
            assert(s.take(p).push(x) + s.skip(p) =~= seq![x] + s);
        }
    } else {
        let t = s.drop_first();
        lemma_insert_text_at(x, t, p - 1);
        if !(p < s.len() && x == s[p]) {
            assert(s.take(p).push(x) + s.skip(p) =~= seq![s[0]] + (t.take(p - 1).push(x) + t.skip(p - 1)));
        }
    }
}

proof fn lemma_insert_text_len(x: Seq<char>, s: Seq<Seq<char>>)
    ensures
        insert_text(x, s).len() <= s.len() + 1,
    decreases s.len(),
{
    if s.len() > 0 {
        lemma_insert_text_len(x, s.drop_first());
    }
}

proof fn lemma_sorted_set_len(xs: Seq<Seq<char>>)
    ensures
        sorted_set(xs).len() <= xs.len(),
    decreases xs.len(),
{
    if xs.len() > 0 {
        lemma_sorted_set_len(xs.drop_last());
        lemma_insert_text_len(xs.last(), sorted_set(xs.drop_last()));
    }
}

/// Adds `x` to the ascending list `v` of distinct strings.
fn insert_sorted_unique(v: &mut Vec<String>, x: &String)
    ensures
        texts(final(v)@) == insert_text(x@, texts(old(v)@)),
{
    let ghost s = texts(v@);
    let mut p: usize = 0;
    while p < v.len() && !(v[p] == *x || text_less(x.as_str(), v[p].as_str()))
        invariant
            p <= v.len(),
            s == texts(v@),
            forall|q: int| 0 <= q < p ==> x@ != s[q] && !text_lt(x@, s[q]),
        decreases v.len() - p,
    {
        p = p + 1;
    }
    proof {
        lemma_insert_text_at(x@, s, p as int);
    }
    if p < v.len() && v[p] == *x {
        return;
    }
    v.insert(p, x.clone());
    assert(texts(v@) =~= s.take(p as int).push(x@) + s.skip(p as int));
}


/// The character view of a list of observations.
pub open spec fn obs_view(v: Seq<(String, String, u64)>) -> Seq<(Seq<char>, Seq<char>, u64)> {
    v.map_values(|o: (String, String, u64)| (o.0@, o.1@, o.2))
}

/// The timestamp of the first observation of `sig` by `node`, if any.
pub open spec fn first_time(obs: Seq<(Seq<char>, Seq<char>, u64)>, node: Seq<char>, sig: Seq<char>) -> Option<u64>
    decreases obs.len(),
{
    if obs.len() == 0 {
        None
    } else {
        match first_time(obs.drop_last(), node, sig) {
            Some(t) => Some(t),
            None => if obs.last().0 == node && obs.last().1 == sig {
                Some(obs.last().2)
            } else {
                None
            },
        }
    }
}

fn collect_observations(input: &[NodeConfirmations]) -> (r: Vec<(String, String, u64)>)
    ensures
        obs_view(r@) == observations(input@),
{
    let mut r: Vec<(String, String, u64)> = Vec::new();
    let mut e: usize = 0;
    while e < input.len()
        invariant
            e <= input@.len(),
            obs_view(r@) == observations(input@.take(e as int)),
        decreases input@.len() - e,
    {
        let name = &input[e].0;
        let results = &input[e].1;
        let ghost before = obs_view(r@);
        let mut k: usize = 0;
        while k < results.len()
            invariant
                k <= results@.len(),
                e < input@.len(),
                results == input@[e as int].1,
                name == input@[e as int].0,
                obs_view(r@) == before + node_observations(input@[e as int]).take(k as int),
            decreases results@.len() - k,
        {
            let rec = &results[k];
            let ghost old_r = r@;
            let n = name.clone();
            let sg = rec.signature.clone();
            r.push((n, sg, rec.timestamp_us));
            assert(obs_view(r@) =~= obs_view(old_r).push((name@, rec.signature@, rec.timestamp_us)));
            assert(node_observations(input@[e as int])[k as int] == (name@, rec.signature@, rec.timestamp_us));
            assert(obs_view(r@) =~= before + node_observations(input@[e as int]).take(k + 1));
            k = k + 1;
        }
        assert(input@.take(e + 1).drop_last() =~= input@.take(e as int));
        assert(node_observations(input@[e as int]).take(k as int) =~= node_observations(input@[e as int]));
        e = e + 1;
    }
    assert(input@.take(e as int) =~= input@);
    r
}

/// The ascending, distinct endpoint names of `input`.
fn collect_node_names(input: &[NodeConfirmations]) -> (r: Vec<String>)
    ensures
        texts(r@) == node_names(input@),
{
    let ghost names = endpoint_names(input@);
    let mut r: Vec<String> = Vec::new();
    let mut e: usize = 0;
    while e < input.len()
        invariant
            e <= input@.len(),
            names == endpoint_names(input@),
            texts(r@) == sorted_set(names.take(e as int)),
        decreases input@.len() - e,
    {
        insert_sorted_unique(&mut r, &input[e].0);
        assert(names.take(e + 1).drop_last() =~= names.take(e as int));
        e = e + 1;
    }
    assert(names.take(e as int) =~= names);
    r
}

/// The ascending, distinct signatures of the observations `obs`.
fn collect_signatures(obs: &Vec<(String, String, u64)>) -> (r: Vec<String>)
    ensures
        texts(r@) == sorted_set(observed_signatures(obs_view(obs@))),
{
    let ghost sigs = observed_signatures(obs_view(obs@));
    let mut r: Vec<String> = Vec::new();
    let mut k: usize = 0;
    while k < obs.len()
        invariant
            k <= obs@.len(),
            sigs == observed_signatures(obs_view(obs@)),
            texts(r@) == sorted_set(sigs.take(k as int)),
        decreases obs@.len() - k,
    {
        insert_sorted_unique(&mut r, &obs[k].1);
        assert(sigs.take(k + 1).drop_last() =~= sigs.take(k as int));
        k = k + 1;
    }
    assert(sigs.take(k as int) =~= sigs);
    r
}

/// When `node` first observed `sig` among `obs`.
fn first_time_of(obs: &Vec<(String, String, u64)>, node: &String, sig: &String) -> (r: Option<u64>)
    ensures
        r == first_time(obs_view(obs@), node@, sig@),
{
    let ghost ov = obs_view(obs@);
    let mut r: Option<u64> = None;
    let mut k: usize = 0;
    while k < obs.len()
        invariant
            k <= obs@.len(),
            ov == obs_view(obs@),
            r == first_time(ov.take(k as int), node@, sig@),
        decreases obs@.len() - k,
    {
        assert(ov.take(k + 1).drop_last() =~= ov.take(k as int));
        if r.is_none() && obs[k].0 == *node && obs[k].1 == *sig {
            r = Some(obs[k].2);
        }
        k = k + 1;
    }
    assert(ov.take(k as int) =~= ov);
    r
}


/// When each of `nodes` first observed `sig`.
pub open spec fn time_row(obs: Seq<(Seq<char>, Seq<char>, u64)>, nodes: Seq<Seq<char>>, sig: Seq<char>) -> Seq<Option<u64>> {
    nodes.map_values(|n: Seq<char>| first_time(obs, n, sig))
}

/// Observation `(t1, n1)` is ahead of `(t2, n2)`: earlier, or as early with a
/// smaller endpoint name.
pub open spec fn key_lt(t1: u64, n1: Seq<char>, t2: u64, n2: Seq<char>) -> bool {
    t1 < t2 || (t1 == t2 && text_lt(n1, n2))
}

/// How many of the first `k` endpoints of `row` are ahead of `(t, n)`.
pub open spec fn ahead_count(row: Seq<Option<u64>>, nodes: Seq<Seq<char>>, t: u64, n: Seq<char>, k: int) -> nat
    decreases k,
{
    if k <= 0 {
        0
    } else {
        ahead_count(row, nodes, t, n, k - 1) + match row[k - 1] {
            Some(tq) => if key_lt(tq, nodes[k - 1], t, n) {
                1nat
            } else {
                0nat
            },
            None => 0nat,
        }
    }
}

/// The rank of endpoint `j` in `row`: one more than the number of endpoints
/// ahead of it; none where it did not observe the signature.
pub open spec fn rank_of(row: Seq<Option<u64>>, nodes: Seq<Seq<char>>, j: int) -> Option<nat> {
    match row[j] {
        Some(t) => Some(ahead_count(row, nodes, t, nodes[j], row.len() as int) + 1),
        None => None,
    }
}

/// The ranks of all endpoints in `row`.
pub open spec fn rank_row(row: Seq<Option<u64>>, nodes: Seq<Seq<char>>) -> Seq<Option<nat>> {
    Seq::new(row.len(), |j: int| rank_of(row, nodes, j))
}

/// The rank matrix: one row per signature of `signatures(input)`, one column
/// per endpoint of `node_names(input)`.
pub open spec fn rank_matrix(input: Seq<NodeConfirmations>) -> Seq<Seq<Option<nat>>> {
    let obs = observations(input);
    let nodes = node_names(input);
    signatures(input).map_values(|s: Seq<char>| rank_row(time_row(obs, nodes, s), nodes))
}

/// The sum of column `j` over the first `i` rows of `ranks`.
pub open spec fn score(ranks: Seq<Seq<Option<nat>>>, j: int, i: int) -> nat
    decreases i,
{
    if i <= 0 {
        0
    } else {
        score(ranks, j, i - 1) + match ranks[i - 1][j] {
            Some(r) => r,
            None => 0nat,
        }
    }
}

/// Each endpoint's aggregate score: the sum of its ranks over all signatures.
pub open spec fn node_totals(input: Seq<NodeConfirmations>) -> Seq<nat> {
    let ranks = rank_matrix(input);
    Seq::new(node_names(input).len(), |j: int| score(ranks, j, ranks.len() as int))
}

/// The number of confirmations in the input.
pub open spec fn record_count(input: Seq<NodeConfirmations>) -> nat {
    observations(input).len()
}

/// An optional machine integer as an optional natural number.
pub open spec fn opt_nat(o: Option<u64>) -> Option<nat> {
    match o {
        Some(v) => Some(v as nat),
        None => None,
    }
}

/// The mathematical view of a matrix of ranks.
pub open spec fn rank_view(rows: Seq<Vec<Option<u64>>>) -> Seq<Seq<Option<nat>>> {
    rows.map_values(|r: Vec<Option<u64>>| r@.map_values(|o: Option<u64>| opt_nat(o)))
}

/// The mathematical view of a list of scores.
pub open spec fn nat_view(v: Seq<u64>) -> Seq<nat> {
    v.map_values(|x: u64| x as nat)
}

proof fn lemma_ahead_count_le(row: Seq<Option<u64>>, nodes: Seq<Seq<char>>, t: u64, n: Seq<char>, k: int)
    requires
        0 <= k,
    ensures
        ahead_count(row, nodes, t, n, k) <= k,
    decreases k,
{
    if k > 0 {
        lemma_ahead_count_le(row, nodes, t, n, k - 1);
    }
}

proof fn lemma_ahead_count_without_self(row: Seq<Option<u64>>, nodes: Seq<Seq<char>>, j: int, k: int)
    requires
        0 <= j < k <= row.len(),
        row[j] is Some,
    ensures
        ahead_count(row, nodes, row[j]->0, nodes[j], k) <= k - 1,
    decreases k,
{
    let t = row[j]->0;
    if k == j + 1 {
        lemma_ahead_count_le(row, nodes, t, nodes[j], k - 1);
        lemma_text_lt_irreflexive(nodes[j]);
    } else {
        lemma_ahead_count_without_self(row, nodes, j, k - 1);
    }
}

/// The ranks of all endpoints for one row of first-observation times.
fn ranks_of_row(row: &Vec<Option<u64>>, nodes: &Vec<String>) -> (r: Vec<Option<u64>>)
    requires
        row@.len() == nodes@.len(),
    ensures
        r@.map_values(|o: Option<u64>| opt_nat(o)) == rank_row(row@, texts(nodes@)),
        forall|j: int| 0 <= j < r@.len() ==> match #[trigger] r@[j] {
            Some(v) => v <= nodes@.len(),
            None => true,
        },
{
    let ghost names = texts(nodes@);
    let mut r: Vec<Option<u64>> = Vec::new();
    let mut j: usize = 0;
    while j < row.len()
        invariant
            j <= row@.len(),
            row@.len() == nodes@.len(),
            names == texts(nodes@),
            r@.len() == j,
            forall|q: int| 0 <= q < j ==> opt_nat(#[trigger] r@[q]) == rank_of(row@, names, q),
            forall|q: int| 0 <= q < j ==> match #[trigger] r@[q] {
                Some(v) => v <= nodes@.len(),
                None => true,
            },
        decreases row@.len() - j,
    {
        match row[j] {
            None => {
                r.push(None);
            },
            Some(t) => {
                let mut ahead: u64 = 0;
                let mut k: usize = 0;
                while k < row.len()
                    invariant
                        k <= row@.len(),
                        j < row@.len(),
                        row@.len() == nodes@.len(),
                        names == texts(nodes@),
                        ahead == ahead_count(row@, names, t, names[j as int], k as int),
                    decreases row@.len() - k,
                {
                    proof {
                        lemma_ahead_count_le(row@, names, t, names[j as int], k as int);
                    }
                    match row[k] {
                        Some(tk) => {
                            if tk < t || (tk == t && text_less(nodes[k].as_str(), nodes[j].as_str())) {
                                ahead = ahead + 1;
                            }
                        },
                        None => {},
                    }
                    k = k + 1;
                }
                proof {
                    lemma_ahead_count_without_self(row@, names, j as int, k as int);
                }
                r.push(Some(ahead + 1));
            },
        }
        j = j + 1;
    }
    assert(r@.map_values(|o: Option<u64>| opt_nat(o)) =~= rank_row(row@, names));
    r
}


/// The ranking of the input, before it is rendered.
struct ReportData {
    sorted_node_names: Vec<String>,
    sorted_signatures: Vec<String>,
    signature_node_scores: Vec<Vec<Option<u64>>>,
    node_total_scores: Vec<u64>,
}

impl ReportData {
    spec fn models(&self, input: Seq<NodeConfirmations>) -> bool {
        &&& texts(self.sorted_node_names@) == node_names(input)
        &&& texts(self.sorted_signatures@) == signatures(input)
        &&& rank_view(self.signature_node_scores@) == rank_matrix(input)
        &&& nat_view(self.node_total_scores@) == node_totals(input)
    }
}

/// When each of `nodes` first observed `sig`.
fn time_row_of(obs: &Vec<(String, String, u64)>, nodes: &Vec<String>, sig: &String) -> (r: Vec<Option<u64>>)
    ensures
        r@ == time_row(obs_view(obs@), texts(nodes@), sig@),
{
    let mut r: Vec<Option<u64>> = Vec::new();
    let mut j: usize = 0;
    while j < nodes.len()
        invariant
            j <= nodes@.len(),
            r@ =~= time_row(obs_view(obs@), texts(nodes@), sig@).take(j as int),
        decreases nodes@.len() - j,
    {
        let t = first_time_of(obs, &nodes[j], sig);
        r.push(t);
        j = j + 1;
    }
    r
}

proof fn lemma_row_bound(a: nat, n: nat, i: nat, s: nat, l: nat, c: nat)
    requires
        a <= i * n,
        i < s,
        n <= l,
        s <= c,
    ensures
        a + n <= (i + 1) * n,
        (i + 1) * n <= l * c,
{
    assert((i + 1) * n <= s * n) by (nonlinear_arith)
        requires
            i < s,
    ;
    assert(s * n <= c * l) by (nonlinear_arith)
        requires
            n <= l,
            s <= c,
    ;
    assert((i + 1) * n == i * n + n) by (nonlinear_arith);
}

/// Ranks every endpoint for every signature and sums each endpoint's ranks.
fn prepare_and_calculate_scores(input: &[NodeConfirmations]) -> (r: ReportData)
    requires
        input@.len() * record_count(input@) <= u64::MAX,
    ensures
        r.models(input@),
{
    let obs = collect_observations(input);
    let nodes = collect_node_names(input);
    let sigs = collect_signatures(&obs);
    let ghost ov = obs_view(obs@);
    let ghost names = texts(nodes@);
    let ghost ranks = rank_matrix(input@);
    proof {
        assert(observed_signatures(obs_view(obs@))
            == observed_signatures(observations(input@)));
        lemma_sorted_set_len(endpoint_names(input@));
        lemma_sorted_set_len(observed_signatures(observations(input@)));
    }
    let mut totals: Vec<u64> = Vec::new();
    let mut j: usize = 0;
    while j < nodes.len()
        invariant
            j <= nodes@.len(),
            totals@.len() == j,
            forall|q: int| 0 <= q < j ==> totals@[q] == 0,
        decreases nodes@.len() - j,
    {
        totals.push(0);
        j = j + 1;
    }
    let mut scores: Vec<Vec<Option<u64>>> = Vec::new();
    let mut i: usize = 0;
    while i < sigs.len()
        invariant
            i <= sigs@.len(),
            ov == obs_view(obs@),
            ov == observations(input@),
            names == texts(nodes@),
            names == node_names(input@),
            texts(sigs@) == signatures(input@),
            ranks == rank_matrix(input@),
            ranks.len() == sigs@.len(),
            nodes@.len() <= input@.len(),
            sigs@.len() <= record_count(input@),
            input@.len() * record_count(input@) <= u64::MAX,
            rank_view(scores@) == ranks.take(i as int),
            totals@.len() == nodes@.len(),
            forall|q: int| 0 <= q < nodes@.len() ==> #[trigger] totals@[q] == score(ranks, q, i as int),
            forall|q: int| 0 <= q < nodes@.len() ==> #[trigger] totals@[q] <= i * nodes@.len(),
        decreases sigs@.len() - i,
    {
        let times = time_row_of(&obs, &nodes, &sigs[i]);
        let row = ranks_of_row(&times, &nodes);
        assert(row@.map_values(|o: Option<u64>| opt_nat(o)) == ranks[i as int]);
        let ghost old_totals = totals@;
        let mut j: usize = 0;
        while j < nodes.len()
            invariant
                j <= nodes@.len(),
                i < sigs@.len(),
                ranks.len() == sigs@.len(),
                old_totals.len() == nodes@.len(),
                sigs@.len() <= record_count(input@),
                nodes@.len() <= input@.len(),
                input@.len() * record_count(input@) <= u64::MAX,
                totals@.len() == nodes@.len(),
                row@.len() == nodes@.len(),
                row@.map_values(|o: Option<u64>| opt_nat(o)) == ranks[i as int],
                forall|q: int| 0 <= q < nodes@.len() ==> match #[trigger] row@[q] {
                    Some(v) => v <= nodes@.len(),
                    None => true,
                },
                forall|q: int| 0 <= q < j ==> #[trigger] totals@[q] == score(ranks, q, i + 1),
                forall|q: int| 0 <= q < j ==> #[trigger] totals@[q] <= (i + 1) * nodes@.len(),
                forall|q: int| j <= q < nodes@.len() ==> #[trigger] totals@[q] == old_totals[q],
                forall|q: int| 0 <= q < nodes@.len() ==> #[trigger] old_totals[q] == score(ranks, q, i as int),
                forall|q: int| 0 <= q < nodes@.len() ==> #[trigger] old_totals[q] <= i * nodes@.len(),
            decreases nodes@.len() - j,
        {
            let add: u64 = match row[j] {
                Some(v) => v,
                None => 0,
            };
            proof {
                lemma_row_bound(totals@[j as int] as nat, nodes@.len(), i as nat, sigs@.len(), input@.len(), record_count(input@));
                assert(opt_nat(row@[j as int]) == ranks[i as int][j as int]);
            }
            let t = totals[j] + add;
            totals.set(j, t);
            j = j + 1;
        }
        let ghost old_scores = scores@;
        scores.push(row);
        assert(rank_view(scores@) =~= rank_view(old_scores).push(row@.map_values(|o: Option<u64>| opt_nat(o))));
        assert(rank_view(scores@) =~= ranks.take(i + 1));
        i = i + 1;
    }
    assert(ranks.len() == sigs@.len());
    assert(ranks.take(i as int) =~= ranks);
    assert(nat_view(totals@) =~= node_totals(input@));
    ReportData {
        sorted_node_names: nodes,
        sorted_signatures: sigs,
        signature_node_scores: scores,
        node_total_scores: totals,
    }
}


/// `piece` repeated `k` times.
pub open spec fn repeat_text(piece: Seq<char>, k: int) -> Seq<char>
    decreases k,
{
    if k <= 0 {
        Seq::empty()
    } else {
        repeat_text(piece, k - 1) + piece
    }
}

/// The column headers of the first `k` endpoints.
pub open spec fn header_cells(nodes: Seq<Seq<char>>, k: int) -> Seq<char>
    decreases k,
{
    if k <= 0 {
        Seq::empty()
    } else {
        header_cells(nodes, k - 1) + "| "@ + nodes[k - 1] + " Score "@
    }
}

/// A rank, or `-` where there is none.
pub open spec fn cell_text(r: Option<nat>) -> Seq<char> {
    match r {
        Some(v) => dec(v),
        None => "-"@,
    }
}

/// The first `k` cells of one matrix row.
pub open spec fn row_cells(row: Seq<Option<nat>>, k: int) -> Seq<char>
    decreases k,
{
    if k <= 0 {
        Seq::empty()
    } else {
        row_cells(row, k - 1) + "| "@ + cell_text(row[k - 1]) + " "@
    }
}

/// The first `k` rows of the matrix, one line per signature.
pub open spec fn signature_rows(sigs: Seq<Seq<char>>, ranks: Seq<Seq<Option<nat>>>, k: int) -> Seq<char>
    decreases k,
{
    if k <= 0 {
        Seq::empty()
    } else {
        signature_rows(sigs, ranks, k - 1) + "| "@ + sigs[k - 1] + " "@ + row_cells(ranks[k - 1], ranks[k - 1].len() as int) + "|\n"@
    }
}

/// The signature-by-endpoint rank table.
pub open spec fn signature_table(sigs: Seq<Seq<char>>, nodes: Seq<Seq<char>>, ranks: Seq<Seq<Option<nat>>>) -> Seq<char> {
    "## Signature Confirmation Report\n\n"@ + "| Signature "@ + header_cells(nodes, nodes.len() as int) + "|\n"@
        + "|---"@ + repeat_text("|---"@, nodes.len() as int) + "|\n"@
        + if sigs.len() == 0 {
            "| *No signatures confirmed* "@ + repeat_text("| - "@, nodes.len() as int) + "|\n"@
        } else {
            signature_rows(sigs, ranks, sigs.len() as int)
        }
}

fn push_repeated(out: &mut String, piece: &str, k: usize)
    ensures
        final(out)@ == old(out)@ + repeat_text(piece@, k as int),
{
    let mut i: usize = 0;
    while i < k
        invariant
            i <= k,
            out@ == old(out)@ + repeat_text(piece@, i as int),
        decreases k - i,
    {
        out.append(piece);
        assert(out@ =~= old(out)@ + repeat_text(piece@, i + 1));
        i = i + 1;
    }
}

/// Renders the rank matrix: one row per signature, one column per endpoint.
fn build_signature_table_markdown(
    sorted_signatures: &[String],
    sorted_node_names: &[String],
    signature_node_scores: &Vec<Vec<Option<u64>>>,
) -> (r: String)
    requires
        signature_node_scores@.len() == sorted_signatures@.len(),
        forall|i: int| 0 <= i < signature_node_scores@.len() ==> (#[trigger] signature_node_scores@[i])@.len() == sorted_node_names@.len(),
    ensures
        r@ == signature_table(texts(sorted_signatures@), texts(sorted_node_names@), rank_view(signature_node_scores@)),
{
    let ghost sigs = texts(sorted_signatures@);
    let ghost nodes = texts(sorted_node_names@);
    let ghost ranks = rank_view(signature_node_scores@);
    let mut out = String::new();
    out.append("## Signature Confirmation Report\n\n");
    out.append("| Signature ");
    let ghost base = out@;
    let mut j: usize = 0;
    while j < sorted_node_names.len()
        invariant
            j <= sorted_node_names@.len(),
            nodes == texts(sorted_node_names@),
            out@ == base + header_cells(nodes, j as int),
        decreases sorted_node_names@.len() - j,
    {
        out.append("| ");
        out.append(sorted_node_names[j].as_str());
        out.append(" Score ");
        assert(out@ =~= base + header_cells(nodes, j + 1));
        j = j + 1;
    }
    out.append("|\n");
    out.append("|---");
    push_repeated(&mut out, "|---", sorted_node_names.len());
    out.append("|\n");
    let ghost head = out@;
    assert(head == "## Signature Confirmation Report\n\n"@ + "| Signature "@ + header_cells(nodes, nodes.len() as int) + "|\n"@
        + "|---"@ + repeat_text("|---"@, nodes.len() as int) + "|\n"@);
    if sorted_signatures.len() == 0 {
        out.append("| *No signatures confirmed* ");
        push_repeated(&mut out, "| - ", sorted_node_names.len());
        out.append("|\n");
        assert(out@ =~= head + ("| *No signatures confirmed* "@ + repeat_text("| - "@, nodes.len() as int) + "|\n"@));
    } else {
        let mut i: usize = 0;
        while i < sorted_signatures.len()
            invariant
                i <= sorted_signatures@.len(),
                sigs == texts(sorted_signatures@),
                ranks == rank_view(signature_node_scores@),
                signature_node_scores@.len() == sorted_signatures@.len(),
                forall|q: int| 0 <= q < signature_node_scores@.len() ==> (#[trigger] signature_node_scores@[q])@.len() == sorted_node_names@.len(),
                out@ == head + signature_rows(sigs, ranks, i as int),
            decreases sorted_signatures@.len() - i,
        {
            out.append("| ");
            out.append(sorted_signatures[i].as_str());
            out.append(" ");
            let row = &signature_node_scores[i];
            let ghost line_start = out@;
            let ghost rv = ranks[i as int];
            assert(rv == row@.map_values(|o: Option<u64>| opt_nat(o)));
            let mut j: usize = 0;
            while j < row.len()
                invariant
                    j <= row@.len(),
                    rv == row@.map_values(|o: Option<u64>| opt_nat(o)),
                    out@ == line_start + row_cells(rv, j as int),
                decreases row@.len() - j,
            {
                let ghost cell_start = out@;
                out.append("| ");
                match row[j] {
                    Some(v) => push_decimal(&mut out, v),
                    None => out.append("-"),
                }
                out.append(" ");
                assert(rv[j as int] == opt_nat(row@[j as int]));
                assert(out@ =~= cell_start + "| "@ + cell_text(rv[j as int]) + " "@);
                assert(out@ =~= line_start + row_cells(rv, j + 1));
                j = j + 1;
            }
            out.append("|\n");
            assert(out@ =~= head + signature_rows(sigs, ranks, i + 1));
            i = i + 1;
        }
    }
    out
}


/// Row `a` of the summary comes before row `b`: a lower score, or the same
/// score and a smaller name.
pub open spec fn row_lt(a: (Seq<char>, nat), b: (Seq<char>, nat)) -> bool {
    a.1 < b.1 || (a.1 == b.1 && text_lt(a.0, b.0))
}

/// `s` with `x` put before the first row that it comes before.
pub open spec fn insert_row(x: (Seq<char>, nat), s: Seq<(Seq<char>, nat)>) -> Seq<(Seq<char>, nat)>
    decreases s.len(),
{
    if s.len() == 0 {
        seq![x]
    } else if row_lt(x, s[0]) {
        seq![x] + s
    } else {
        seq![s[0]] + insert_row(x, s.drop_first())
    }
}

/// `rows` sorted by ascending score, then by name.
pub open spec fn sort_rows(rows: Seq<(Seq<char>, nat)>) -> Seq<(Seq<char>, nat)>
    decreases rows.len(),
{
    if rows.len() == 0 {
        Seq::empty()
    } else {
        insert_row(rows.last(), sort_rows(rows.drop_last()))
    }
}

/// The first `k` lines of the summary, numbered from one.
pub open spec fn summary_lines(rows: Seq<(Seq<char>, nat)>, k: int) -> Seq<char>
    decreases k,
{
    if k <= 0 {
        Seq::empty()
    } else {
        summary_lines(rows, k - 1) + "| "@ + dec(k as nat) + " | "@ + rows[k - 1].0 + " | "@ + dec(rows[k - 1].1) + " |\n"@
    }
}

/// The endpoint summary of `(name, aggregate score)` rows, best first.
pub open spec fn summary_table(rows: Seq<(Seq<char>, nat)>) -> Seq<char> {
    let sorted = sort_rows(rows);
    "\n## Node Performance Summary (Lower Sum Score is Better)\n\n"@ + "| Order | Node Name | Sum Score |\n"@ + "|---|---|---|\n"@
        + if sorted.len() == 0 {
            "| - | *No nodes to report* | - |\n"@
        } else {
            summary_lines(sorted, sorted.len() as int)
        }
}

/// The mathematical view of summary rows.
pub open spec fn rows_view(v: Seq<(String, u64)>) -> Seq<(Seq<char>, nat)> {
    v.map_values(|r: (String, u64)| (r.0@, r.1 as nat))
}

proof fn lemma_insert_row_at(x: (Seq<char>, nat), s: Seq<(Seq<char>, nat)>, p: int)
    requires
        0 <= p <= s.len(),
        forall|q: int| 0 <= q < p ==> !row_lt(x, s[q]),
        p < s.len() ==> row_lt(x, s[p]),
    ensures
        insert_row(x, s) == s.take(p).push(x) + s.skip(p),
    decreases p,
{
    if p == 0 {
        assert(s.take(p).push(x) + s.skip(p) =~= seq![x] + s);
    } else {
        let t = s.drop_first();
        lemma_insert_row_at(x, t, p - 1);
        assert(s.take(p).push(x) + s.skip(p) =~= seq![s[0]] + (t.take(p - 1).push(x) + t.skip(p - 1)));
    }
}

proof fn lemma_insert_row_len(x: (Seq<char>, nat), s: Seq<(Seq<char>, nat)>)
    ensures
        insert_row(x, s).len() == s.len() + 1,
    decreases s.len(),
{
    if s.len() > 0 {
        lemma_insert_row_len(x, s.drop_first());
    }
}

/// Sorts summary rows by ascending score, then by name.
fn sort_summary_rows(rows: Vec<(String, u64)>) -> (r: Vec<(String, u64)>)
    ensures
        rows_view(r@) == sort_rows(rows_view(rows@)),
{
    let ghost all = rows_view(rows@);
    let mut sorted: Vec<(String, u64)> = Vec::new();
    let mut k: usize = 0;
    while k < rows.len()
        invariant
            k <= rows@.len(),
            all == rows_view(rows@),
            rows_view(sorted@) == sort_rows(all.take(k as int)),
        decreases rows@.len() - k,
    {
        let x = &rows[k];
        let ghost xv = (x.0@, x.1 as nat);
        let ghost s = rows_view(sorted@);
        let mut p: usize = 0;
        while p < sorted.len() && !(x.1 < sorted[p].1 || (x.1 == sorted[p].1 && text_less(x.0.as_str(), sorted[p].0.as_str())))
            invariant
                p <= sorted@.len(),
                s == rows_view(sorted@),
                xv == (x.0@, x.1 as nat),
                forall|q: int| 0 <= q < p ==> !row_lt(xv, s[q]),
            decreases sorted@.len() - p,
        {
            p = p + 1;
        }
        proof {
            lemma_insert_row_at(xv, s, p as int);
            assert(all.take(k + 1).drop_last() =~= all.take(k as int));
        }
        sorted.insert(p, (x.0.clone(), x.1));
        assert(rows_view(sorted@) =~= s.take(p as int).push(xv) + s.skip(p as int));
        k = k + 1;
    }
    assert(all.take(k as int) =~= all);
    sorted
}

/// Renders the endpoint summary, best aggregate score first.
fn build_node_summary_table_markdown(node_total_scores: Vec<(String, u64)>) -> (r: String)
    ensures
        r@ == summary_table(rows_view(node_total_scores@)),
{
    let sorted = sort_summary_rows(node_total_scores);
    let ghost sv = rows_view(sorted@);
    let mut out = String::new();
    out.append("\n## Node Performance Summary (Lower Sum Score is Better)\n\n");
    out.append("| Order | Node Name | Sum Score |\n");
    out.append("|---|---|---|\n");
    let ghost head = out@;
    if sorted.len() == 0 {
        out.append("| - | *No nodes to report* | - |\n");
    } else {
        let mut k: usize = 0;
        while k < sorted.len()
            invariant
                k <= sorted@.len(),
                sv == rows_view(sorted@),
                out@ == head + summary_lines(sv, k as int),
            decreases sorted@.len() - k,
        {
            out.append("| ");
            push_decimal(&mut out, (k + 1) as u64);
            out.append(" | ");
            out.append(sorted[k].0.as_str());
            out.append(" | ");
            push_decimal(&mut out, sorted[k].1);
            out.append(" |\n");
            assert(out@ =~= head + summary_lines(sv, k + 1));
            k = k + 1;
        }
    }
    out
}

/// Summary rows: each endpoint with its aggregate score, in name order.
pub open spec fn summary_rows(input: Seq<NodeConfirmations>) -> Seq<(Seq<char>, nat)> {
    Seq::new(node_names(input).len(), |j: int| (node_names(input)[j], node_totals(input)[j]))
}

/// The whole report: the rank matrix, then the endpoint summary.
pub open spec fn report_text(input: Seq<NodeConfirmations>) -> Seq<char> {
    signature_table(signatures(input), node_names(input), rank_matrix(input)) + summary_table(summary_rows(input))
}

proof fn lemma_observations_len(input: Seq<NodeConfirmations>)
    ensures
        observations(input).len() == if input.len() == 0 {
            0
        } else {
            observations(input.drop_last()).len() + input.last().1@.len()
        },
{
}

/// Whether `input` is small enough for `generate_report_markdown`: the number
/// of endpoints times the number of confirmations fits in 64 bits, so that
/// no aggregate score can overflow.
pub fn fits_in_report(input: &[NodeConfirmations]) -> (r: bool)
    ensures
        r == (input@.len() * record_count(input@) <= u64::MAX),
{
    let mut total: u64 = 0;
    let mut e: usize = 0;
    while e < input.len()
        invariant
            e <= input@.len(),
            total == observations(input@.take(e as int)).len(),
        decreases input@.len() - e,
    {
        proof {
            lemma_observations_len(input@.take(e + 1));
            assert(input@.take(e + 1).drop_last() =~= input@.take(e as int));
        }
        let n = input[e].1.len();
        if n as u64 > u64::MAX - total {
            proof {
                lemma_observations_prefix_le(input@, e + 1);
                assert(input@.len() * record_count(input@) >= record_count(input@)) by (nonlinear_arith)
                    requires
                        input@.len() >= 1,
                ;
            }
            return false;
        }
        total = total + n as u64;
        e = e + 1;
    }
    assert(input@.take(e as int) =~= input@);
    let len = input.len() as u128;
    let count = total as u128;
    assert(len * count <= u64::MAX * u64::MAX) by (nonlinear_arith)
        requires
            len <= u64::MAX,
            count <= u64::MAX,
    ;
    len * count <= u64::MAX as u128
}

proof fn lemma_observations_prefix_le(input: Seq<NodeConfirmations>, k: int)
    requires
        0 <= k <= input.len(),
    ensures
        observations(input.take(k)).len() <= observations(input).len(),
    decreases input.len() - k,
{
    if k < input.len() {
        lemma_observations_prefix_le(input, k + 1);
        lemma_observations_len(input.take(k + 1));
        assert(input.take(k + 1).drop_last() =~= input.take(k));
    } else {
        assert(input.take(k) =~= input);
    }
}

/// Ranks the endpoints by how fast each confirmed each signature and
/// renders the comparison as markdown.
pub fn generate_report_markdown(all_node_confirmations: &[NodeConfirmations]) -> (r: String)
    requires
        all_node_confirmations@.len() * record_count(all_node_confirmations@) <= u64::MAX,
    ensures
        r@ == report_text(all_node_confirmations@),
{
    let ghost input = all_node_confirmations@;
    let data = prepare_and_calculate_scores(all_node_confirmations);
    let ghost ranks = rank_matrix(input);
    assert forall|i: int| 0 <= i < data.signature_node_scores@.len() implies (#[trigger] data.signature_node_scores@[i])@.len()
        == data.sorted_node_names@.len() by {
        assert(rank_view(data.signature_node_scores@)[i] == ranks[i]);
        assert(ranks[i].len() == node_names(input).len());
    }
    let mut out = build_signature_table_markdown(
        data.sorted_signatures.as_slice(),
        data.sorted_node_names.as_slice(),
        &data.signature_node_scores,
    );
    assert(nat_view(data.node_total_scores@).len() == texts(data.sorted_node_names@).len());
    let mut pairs: Vec<(String, u64)> = Vec::new();
    let mut j: usize = 0;
    while j < data.sorted_node_names.len()
        invariant
            j <= data.sorted_node_names@.len(),
            data.node_total_scores@.len() == data.sorted_node_names@.len(),
            data.models(input),
            rows_view(pairs@) =~= summary_rows(input).take(j as int),
        decreases data.sorted_node_names@.len() - j,
    {
        assert(texts(data.sorted_node_names@)[j as int] == data.sorted_node_names@[j as int]@);
        assert(nat_view(data.node_total_scores@)[j as int] == data.node_total_scores@[j as int] as nat);
        let ghost old_pairs = pairs@;
        pairs.push((data.sorted_node_names[j].clone(), data.node_total_scores[j]));
        assert(rows_view(pairs@) =~= rows_view(old_pairs).push(
            (data.sorted_node_names@[j as int]@, data.node_total_scores@[j as int] as nat),
        ));
        assert(summary_rows(input)[j as int] == (node_names(input)[j as int], node_totals(input)[j as int]));
        assert(summary_rows(input).take(j + 1) =~= summary_rows(input).take(j as int).push(summary_rows(input)[j as int]));
        j = j + 1;
    }
    assert(summary_rows(input).take(j as int) =~= summary_rows(input));
    let summary = build_node_summary_table_markdown(pairs);
    out.append(summary.as_str());
    out
}


/// Each element of `s` comes before every later one.
pub open spec fn strictly_ascending(s: Seq<Seq<char>>) -> bool {
    forall|i: int, j: int| 0 <= i < j < s.len() ==> text_lt(#[trigger] s[i], #[trigger] s[j])
}

proof fn lemma_insert_text_ascending(x: Seq<char>, s: Seq<Seq<char>>)
    requires
        strictly_ascending(s),
    ensures
        strictly_ascending(insert_text(x, s)),
        forall|k: int| 0 <= k < insert_text(x, s).len() ==> #[trigger] insert_text(x, s)[k] == x || s.contains(insert_text(x, s)[k]),
    decreases s.len(),
{
    if s.len() == 0 {
    } else if x == s[0] {
    } else if text_lt(x, s[0]) {
        let r = seq![x] + s;
        assert forall|i: int, j: int| 0 <= i < j < r.len() implies text_lt(#[trigger] r[i], #[trigger] r[j]) by {
            if i == 0 {
                if j > 1 {
                    lemma_text_lt_transitive(x, s[0], s[j - 1]);
                }
            } else {
                assert(text_lt(s[i - 1], s[j - 1]));
            }
        }
        assert forall|k: int| 0 <= k < r.len() implies #[trigger] r[k] == x || s.contains(r[k]) by {
            if k > 0 {
                assert(s[k - 1] == r[k]);
            }
        }
    } else {
        let t = s.drop_first();
        assert(strictly_ascending(t)) by {
            assert forall|i: int, j: int| 0 <= i < j < t.len() implies text_lt(#[trigger] t[i], #[trigger] t[j]) by {
                assert(text_lt(s[i + 1], s[j + 1]));
            }
        }
        lemma_insert_text_ascending(x, t);
        lemma_text_lt_total(x, s[0]);
        let rest = insert_text(x, t);
        let r = seq![s[0]] + rest;
        assert(r == insert_text(x, s));
        assert forall|k: int| 0 <= k < rest.len() implies text_lt(s[0], #[trigger] rest[k]) by {
            if rest[k] != x {
                let q = choose|q: int| 0 <= q < t.len() && t[q] == rest[k];
                assert(text_lt(s[0], s[q + 1]));
            }
        }
        assert forall|i: int, j: int| 0 <= i < j < r.len() implies text_lt(#[trigger] r[i], #[trigger] r[j]) by {
            if i == 0 {
                assert(r[j] == rest[j - 1]);
            } else {
                assert(r[i] == rest[i - 1] && r[j] == rest[j - 1]);
            }
        }
        assert forall|k: int| 0 <= k < r.len() implies #[trigger] r[k] == x || s.contains(r[k]) by {
            if k == 0 {
                assert(s[0] == r[0]);
            } else if r[k] != x {
                assert(r[k] == rest[k - 1]);
                let q = choose|q: int| 0 <= q < t.len() && t[q] == rest[k - 1];
                assert(s[q + 1] == r[k]);
            }
        }
    }
}

/// `sorted_set` lists its elements in strictly ascending order.
pub proof fn lemma_sorted_set_ascending(xs: Seq<Seq<char>>)
    ensures
        strictly_ascending(sorted_set(xs)),
    decreases xs.len(),
{
    if xs.len() > 0 {
        lemma_sorted_set_ascending(xs.drop_last());
        lemma_insert_text_ascending(xs.last(), sorted_set(xs.drop_last()));
    }
}

proof fn lemma_key_lt_transitive(t1: u64, n1: Seq<char>, t2: u64, n2: Seq<char>, t3: u64, n3: Seq<char>)
    requires
        key_lt(t1, n1, t2, n2),
        key_lt(t2, n2, t3, n3),
    ensures
        key_lt(t1, n1, t3, n3),
{
    if t1 == t2 && t2 == t3 {
        lemma_text_lt_transitive(n1, n2, n3);
    }
}

proof fn lemma_ahead_count_grows(
    row: Seq<Option<u64>>,
    nodes: Seq<Seq<char>>,
    ta: u64,
    na: Seq<char>,
    tb: u64,
    nb: Seq<char>,
    ja: int,
    k: int,
)
    requires
        key_lt(ta, na, tb, nb),
        0 <= k <= row.len(),
        row.len() == nodes.len(),
        0 <= ja < row.len(),
        row[ja] == Some(ta),
        nodes[ja] == na,
    ensures
        ahead_count(row, nodes, tb, nb, k) >= ahead_count(row, nodes, ta, na, k) + (if ja < k {
            1int
        } else {
            0int
        }),
    decreases k,
{
    if k > 0 {
        lemma_ahead_count_grows(row, nodes, ta, na, tb, nb, ja, k - 1);
        match row[k - 1] {
            Some(tq) => {
                if key_lt(tq, nodes[k - 1], ta, na) {
                    lemma_key_lt_transitive(tq, nodes[k - 1], ta, na, tb, nb);
                }
                if k - 1 == ja {
                    lemma_text_lt_irreflexive(na);
                }
            },
            None => {},
        }
    }
}

/// Timestamps with endpoint names as tie-break order the endpoints
/// strictly: for each signature, no two endpoints share a rank, so the ranks
/// and with them the whole report are fixed by the records alone.
pub proof fn lemma_ranks_are_distinct(input: Seq<NodeConfirmations>, i: int, j1: int, j2: int)
    requires
        0 <= i < rank_matrix(input).len(),
        0 <= j1 < node_names(input).len(),
        0 <= j2 < node_names(input).len(),
        j1 != j2,
        rank_matrix(input)[i][j1] is Some,
    ensures
        rank_matrix(input)[i][j1] != rank_matrix(input)[i][j2],
{
    let nodes = node_names(input);
    let row = time_row(observations(input), nodes, signatures(input)[i]);
    lemma_sorted_set_ascending(endpoint_names(input));
    if row[j2] is Some {
        let t1 = row[j1]->0;
        let t2 = row[j2]->0;
        let (a, b) = if j1 < j2 { (j1, j2) } else { (j2, j1) };
        assert(text_lt(nodes[a], nodes[b]));
        lemma_text_lt_irreflexive(nodes[a]);
        if key_lt(t1, nodes[j1], t2, nodes[j2]) {
            lemma_ahead_count_grows(row, nodes, t1, nodes[j1], t2, nodes[j2], j1, row.len() as int);
        } else {
            if t1 == t2 {
                assert(text_lt(nodes[j2], nodes[j1])) by {
                    if j1 < j2 {
                        assert(text_lt(nodes[j1], nodes[j2]));
                    }
                }
            }
            lemma_ahead_count_grows(row, nodes, t2, nodes[j2], t1, nodes[j1], j2, row.len() as int);
        }
    }
}


proof fn lemma_insert_text_contains(x: Seq<char>, s: Seq<Seq<char>>, y: Seq<char>)
    requires
        strictly_ascending(s),
    ensures
        insert_text(x, s).contains(y) <==> (y == x || s.contains(y)),
    decreases s.len(),
{
    lemma_insert_text_ascending(x, s);
    let r = insert_text(x, s);
    if s.len() == 0 {
        if y == x {
            assert(r[0] == y);
        }
    } else if x == s[0] {
    } else if text_lt(x, s[0]) {
        if y == x {
            assert(r[0] == y);
        } else if s.contains(y) {
            let q = choose|q: int| 0 <= q < s.len() && s[q] == y;
            assert(r[q + 1] == y);
        }
    } else {
        let t = s.drop_first();
        assert(strictly_ascending(t)) by {
            assert forall|i: int, j: int| 0 <= i < j < t.len() implies text_lt(#[trigger] t[i], #[trigger] t[j]) by {
                assert(text_lt(s[i + 1], s[j + 1]));
            }
        }
        lemma_insert_text_contains(x, t, y);
        let rest = insert_text(x, t);
        assert(r == seq![s[0]] + rest);
        if r.contains(y) && y != s[0] {
            let q = choose|q: int| 0 <= q < r.len() && r[q] == y;
            assert(rest[q - 1] == y);
        }
        if rest.contains(y) {
            let q = choose|q: int| 0 <= q < rest.len() && rest[q] == y;
            assert(r[q + 1] == y);
        }
        if y == s[0] {
            assert(r[0] == y);
        }
        if t.contains(y) {
            let q = choose|q: int| 0 <= q < t.len() && t[q] == y;
            assert(s[q + 1] == y);
        }
        if s.contains(y) && y != s[0] {
            let q = choose|q: int| 0 <= q < s.len() && s[q] == y;
            assert(t[q - 1] == y);
        }
    }
}

/// `sorted_set(xs)` holds exactly the elements of `xs`.
pub proof fn lemma_sorted_set_contains(xs: Seq<Seq<char>>, y: Seq<char>)
    ensures
        sorted_set(xs).contains(y) <==> xs.contains(y),
    decreases xs.len(),
{
    if xs.len() > 0 {
        let init = xs.drop_last();
        lemma_sorted_set_contains(init, y);
        lemma_sorted_set_ascending(init);
        lemma_insert_text_contains(xs.last(), sorted_set(init), y);
        if init.contains(y) {
            let q = choose|q: int| 0 <= q < init.len() && init[q] == y;
            assert(xs[q] == y);
        }
        if xs.contains(y) && y != xs.last() {
            let q = choose|q: int| 0 <= q < xs.len() && xs[q] == y;
            assert(init[q] == y);
        }
    }
}

/// Two strictly ascending sequences with the same elements are equal.
proof fn lemma_ascending_unique(a: Seq<Seq<char>>, b: Seq<Seq<char>>)
    requires
        strictly_ascending(a),
        strictly_ascending(b),
        forall|y: Seq<char>| a.contains(y) <==> b.contains(y),
    ensures
        a == b,
    decreases a.len(),
{
    if a.len() == 0 {
        if b.len() > 0 {
            assert(b.contains(b[0]));
        }
        assert(a =~= b);
    } else {
        assert(a.contains(a[0]));
        assert(b.len() > 0);
        assert(b.contains(b[0]));
        if a[0] != b[0] {
            let p = choose|p: int| 0 <= p < b.len() && b[p] == a[0];
            let q = choose|q: int| 0 <= q < a.len() && a[q] == b[0];
            assert(text_lt(b[0], a[0]));
            assert(text_lt(a[0], b[0]));
            lemma_text_lt_transitive(a[0], b[0], a[0]);
            lemma_text_lt_irreflexive(a[0]);
        }
        let ta = a.drop_first();
        let tb = b.drop_first();
        assert(strictly_ascending(ta)) by {
            assert forall|i: int, j: int| 0 <= i < j < ta.len() implies text_lt(#[trigger] ta[i], #[trigger] ta[j]) by {
                assert(text_lt(a[i + 1], a[j + 1]));
            }
        }
        assert(strictly_ascending(tb)) by {
            assert forall|i: int, j: int| 0 <= i < j < tb.len() implies text_lt(#[trigger] tb[i], #[trigger] tb[j]) by {
                assert(text_lt(b[i + 1], b[j + 1]));
            }
        }
        assert forall|y: Seq<char>| ta.contains(y) <==> tb.contains(y) by {
            if ta.contains(y) {
                let q = choose|q: int| 0 <= q < ta.len() && ta[q] == y;
                assert(a[q + 1] == y);
                assert(text_lt(a[0], y));
                lemma_text_lt_irreflexive(y);
                assert(a.contains(y));
                assert(b.contains(y));
                assert(y != b[0]);
                let p = choose|p: int| 0 <= p < b.len() && b[p] == y;
                assert(p != 0);
                assert(tb[p - 1] == y);
            }
            if tb.contains(y) {
                let q = choose|q: int| 0 <= q < tb.len() && tb[q] == y;
                assert(b[q + 1] == y);
                assert(text_lt(b[0], y));
                lemma_text_lt_irreflexive(y);
                assert(b.contains(y));
                assert(a.contains(y));
                assert(y != a[0]);
                let p = choose|p: int| 0 <= p < a.len() && a[p] == y;
                assert(p != 0);
                assert(ta[p - 1] == y);
            }
        }
        lemma_ascending_unique(ta, tb);
        assert(a =~= seq![a[0]] + ta);
        assert(b =~= seq![b[0]] + tb);
    }
}

/// `sorted_set` depends only on which elements occur, not on their order
/// or repetition.
pub proof fn lemma_sorted_set_same_elements(xs: Seq<Seq<char>>, ys: Seq<Seq<char>>)
    requires
        forall|y: Seq<char>| xs.contains(y) <==> ys.contains(y),
    ensures
        sorted_set(xs) == sorted_set(ys),
{
    lemma_sorted_set_ascending(xs);
    lemma_sorted_set_ascending(ys);
    assert forall|y: Seq<char>| sorted_set(xs).contains(y) <==> sorted_set(ys).contains(y) by {
        lemma_sorted_set_contains(xs, y);
        lemma_sorted_set_contains(ys, y);
    }
    lemma_ascending_unique(sorted_set(xs), sorted_set(ys));
}


/// No endpoint reports one signature twice.
pub open spec fn one_per_pair(obs: Seq<(Seq<char>, Seq<char>, u64)>) -> bool {
    forall|a: int, b: int|
        0 <= a < obs.len() && 0 <= b < obs.len() && (#[trigger] obs[a]).0 == (#[trigger] obs[b]).0 && obs[a].1 == obs[b].1 ==> a == b
}

proof fn lemma_first_time_found(obs: Seq<(Seq<char>, Seq<char>, u64)>, n: Seq<char>, s: Seq<char>)
    ensures
        first_time(obs, n, s) matches Some(t) ==> obs.contains((n, s, t)),
        first_time(obs, n, s) is None ==> forall|k: int| 0 <= k < obs.len() ==> !((#[trigger] obs[k]).0 == n && obs[k].1 == s),
    decreases obs.len(),
{
    if obs.len() > 0 {
        let init = obs.drop_last();
        lemma_first_time_found(init, n, s);
        match first_time(init, n, s) {
            Some(t) => {
                let q = choose|q: int| 0 <= q < init.len() && init[q] == (n, s, t);
                assert(obs[q] == (n, s, t));
            },
            None => {
                if obs.last().0 == n && obs.last().1 == s {
                    assert(obs[obs.len() - 1] == (n, s, obs.last().2));
                } else {
                    assert forall|k: int| 0 <= k < obs.len() implies !((#[trigger] obs[k]).0 == n && obs[k].1 == s) by {
                        if k < obs.len() - 1 {
                            assert(obs[k] == init[k]);
                        }
                    }
                }
            },
        }
    }
}

proof fn lemma_first_time_of_member(obs: Seq<(Seq<char>, Seq<char>, u64)>, n: Seq<char>, s: Seq<char>, t: u64)
    requires
        one_per_pair(obs),
        obs.contains((n, s, t)),
    ensures
        first_time(obs, n, s) == Some(t),
{
    lemma_first_time_found(obs, n, s);
    let k = choose|k: int| 0 <= k < obs.len() && obs[k] == (n, s, t);
    assert(obs[k].0 == n && obs[k].1 == s);
    if let Some(u) = first_time(obs, n, s) {
        let j = choose|j: int| 0 <= j < obs.len() && obs[j] == (n, s, u);
        assert(obs[j].0 == obs[k].0 && obs[j].1 == obs[k].1);
    }
}

/// Which confirmations exist fixes when each endpoint first saw each
/// signature, where no endpoint reports a signature twice.
proof fn lemma_first_time_same_elements(
    a: Seq<(Seq<char>, Seq<char>, u64)>,
    b: Seq<(Seq<char>, Seq<char>, u64)>,
    n: Seq<char>,
    s: Seq<char>,
)
    requires
        one_per_pair(a),
        one_per_pair(b),
        forall|o: (Seq<char>, Seq<char>, u64)| a.contains(o) <==> b.contains(o),
    ensures
        first_time(a, n, s) == first_time(b, n, s),
{
    lemma_first_time_found(a, n, s);
    lemma_first_time_found(b, n, s);
    if let Some(t) = first_time(a, n, s) {
        lemma_first_time_of_member(b, n, s, t);
    } else if let Some(t) = first_time(b, n, s) {
        lemma_first_time_of_member(a, n, s, t);
    }
}

proof fn lemma_projection_same_elements(
    a: Seq<(Seq<char>, Seq<char>, u64)>,
    b: Seq<(Seq<char>, Seq<char>, u64)>,
)
    requires
        forall|o: (Seq<char>, Seq<char>, u64)| a.contains(o) <==> b.contains(o),
    ensures
        forall|y: Seq<char>| #[trigger] observed_signatures(a).contains(y) <==> observed_signatures(b).contains(y),
{
    let pa = observed_signatures(a);
    let pb = observed_signatures(b);
    assert forall|y: Seq<char>| pa.contains(y) <==> pb.contains(y) by {
        if pa.contains(y) {
            let q = choose|q: int| 0 <= q < pa.len() && pa[q] == y;
            assert(a.contains(a[q]));
            let p = choose|p: int| 0 <= p < b.len() && b[p] == a[q];
            assert(pb[p] == y);
        }
        if pb.contains(y) {
            let q = choose|q: int| 0 <= q < pb.len() && pb[q] == y;
            assert(b.contains(b[q]));
            let p = choose|p: int| 0 <= p < a.len() && a[p] == b[q];
            assert(pa[p] == y);
        }
    }
}

/// The report depends only on which endpoints and which confirmations there
/// are, never on the order in which they arrived or are listed: two inputs
/// with the same endpoint names and the same confirmations, each endpoint
/// reporting each signature at most once, render byte for byte alike.
pub proof fn lemma_report_ignores_arrival_order(a: Seq<NodeConfirmations>, b: Seq<NodeConfirmations>)
    requires
        forall|n: Seq<char>| #[trigger] endpoint_names(a).contains(n) <==> endpoint_names(b).contains(n),
        forall|o: (Seq<char>, Seq<char>, u64)| observations(a).contains(o) <==> observations(b).contains(o),
        one_per_pair(observations(a)),
        one_per_pair(observations(b)),
    ensures
        report_text(a) == report_text(b),
{
    let oa = observations(a);
    let ob = observations(b);
    lemma_sorted_set_same_elements(endpoint_names(a), endpoint_names(b));
    lemma_projection_same_elements(oa, ob);
    lemma_sorted_set_same_elements(
        observed_signatures(oa),
        observed_signatures(ob),
    );
    let nodes = node_names(a);
    assert(nodes == node_names(b));
    assert(signatures(a) == signatures(b));
    assert forall|sig: Seq<char>| time_row(oa, nodes, sig) == time_row(ob, nodes, sig) by {
        assert forall|j: int| 0 <= j < nodes.len() implies #[trigger] time_row(oa, nodes, sig)[j] == time_row(ob, nodes, sig)[j] by {
            lemma_first_time_same_elements(oa, ob, nodes[j], sig);
        }
        assert(time_row(oa, nodes, sig) =~= time_row(ob, nodes, sig));
    }
    assert(rank_matrix(a) =~= rank_matrix(b));
    assert(node_totals(a) =~= node_totals(b));
    assert(summary_rows(a) =~= summary_rows(b));
}

} // verus!
