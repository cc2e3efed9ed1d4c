//! The agentic-search gate's query simulation: fixed questions, each with the
//! pages an agent reads from the root index down to the page that answers
//! it. Whether the pages exist is looked up outside; which questions are
//! reached follows from that here.
use vstd::prelude::*;
use crate::strs::sv;

verus! {

#[derive(Debug, Clone, Copy, PartialEq, Eq, Structural)]
pub enum GateMode {
    Normal,
    Heavy,
}

/// What a gate run measured.
#[derive(Debug)]
pub struct GateSummary {
    pub fixtures: usize,
    pub input_bytes: u64,
    pub generated_pages: usize,
    pub max_page_chars: usize,
    pub oversized_pages: usize,
    pub broken_local_links: usize,
    pub unresolved_links: usize,
    pub expected_unresolved_links: usize,
    pub input_hash_changed: bool,
    pub byte_identical_rerun: bool,
    pub peak_rss_bytes: Option<u64>,
    pub elapsed_ms: u128,
    pub max_buffered_bytes: usize,
}

#[derive(Debug)]
pub struct QuerySimulation {
    pub query: &'static str,
    pub route: Vec<String>,
    pub expected_page: String,
    pub read_count: usize,
    pub reached: bool,
}

/// One simulated question: the question, the pages read in order, the page that answers it.
pub type QuerySpec = (Seq<char>, Seq<Seq<char>>, Seq<char>);

/// The questions, in order.
pub open spec fn query_specs() -> Seq<QuerySpec> {
    seq![
        (
            "ノルヴァス王国の設定はどこ？"@,
            seq![
                "index.md"@,
                "fragments/_index.md"@,
                "fragments/scenario/_index.md"@,
                "fragments/scenario/politics/_index.md"@,
                "fragments/scenario/politics/norvas/政治設定.md"@,
            ],
            "fragments/scenario/politics/norvas/政治設定.md"@,
        ),
        (
            "政治ルートの主人公関連を探す"@,
            seq![
                "index.md"@,
                "fragments/_index.md"@,
                "fragments/scenario/_index.md"@,
                "fragments/scenario/politics/_index.md"@,
                "fragments/scenario/politics/protagonist-route/主人公関連.md"@,
            ],
            "fragments/scenario/politics/protagonist-route/主人公関連.md"@,
        ),
        (
            "ハイネ・グリュンヴァルトが出るページ"@,
            seq!["index.md"@, "agent/terms/index.md"@, "fragments/characters/heine-grunwald/index.md"@],
            "fragments/characters/heine-grunwald/index.md"@,
        ),
        (
            "地理マップから交易路を辿る"@,
            seq![
                "index.md"@,
                "fragments/_index.md"@,
                "fragments/backbone/_index.md"@,
                "fragments/backbone/geography-map/交易路.md"@,
            ],
            "fragments/backbone/geography-map/交易路.md"@,
        ),
        (
            "キャラクター一覧から関係性を見る"@,
            seq![
                "index.md"@,
                "fragments/_index.md"@,
                "fragments/characters/_index.md"@,
                "fragments/characters/relationships/関係性.md"@,
            ],
            "fragments/characters/relationships/関係性.md"@,
        ),
    ]
}

/// The view of a simulation: question, route, answer page, pages read, reached.
pub type SimulationV = (Seq<char>, Seq<Seq<char>>, Seq<char>, usize, bool);

impl View for QuerySimulation {
    type V = SimulationV;

    open spec fn view(&self) -> SimulationV {
        (self.query@, sv(self.route@), self.expected_page@, self.read_count, self.reached)
    }
}

/// A question is reached when every page of its route and its answer page exist.
pub open spec fn simulated(q: QuerySpec, existing: Seq<Seq<char>>) -> SimulationV {
    (
        q.0,
        q.1,
        q.2,
        q.1.len() as usize,
        (forall|k: int| 0 <= k < q.1.len() ==> existing.contains(#[trigger] q.1[k])) && existing.contains(q.2),
    )
}

fn strings(v: &[&str]) -> (r: Vec<String>)
    ensures
        r@.len() == v@.len(),
        forall|k: int| 0 <= k < v@.len() ==> #[trigger] r@[k]@ == v@[k]@,
{
    let mut out: Vec<String> = Vec::new();
    let mut i: usize = 0;
    while i < v.len()
        invariant
            i <= v@.len(),
            out@.len() == i,
            forall|k: int| 0 <= k < i ==> #[trigger] out@[k]@ == v@[k]@,
        decreases v@.len() - i,
    {
        out.push(String::from_str(v[i]));
        i = i + 1;
    }
    out
}

/// The question of number `k`, its route and its answer page.
fn query_spec(k: usize) -> (r: (&'static str, Vec<String>, String))
    requires
        k < query_specs().len(),
    ensures
        r.0@ == query_specs()[k as int].0,
        sv(r.1@) == query_specs()[k as int].1,
        r.2@ == query_specs()[k as int].2,
{
    let (q, route, expected): (&'static str, Vec<String>, &'static str) = if k == 0 {
        ("ノルヴァス王国の設定はどこ？", strings(&["index.md", "fragments/_index.md", "fragments/scenario/_index.md",
            "fragments/scenario/politics/_index.md", "fragments/scenario/politics/norvas/政治設定.md"]),
            "fragments/scenario/politics/norvas/政治設定.md")
    } else if k == 1 {
        ("政治ルートの主人公関連を探す", strings(&["index.md", "fragments/_index.md", "fragments/scenario/_index.md",
            "fragments/scenario/politics/_index.md", "fragments/scenario/politics/protagonist-route/主人公関連.md"]),
            "fragments/scenario/politics/protagonist-route/主人公関連.md")
    } else if k == 2 {
        ("ハイネ・グリュンヴァルトが出るページ", strings(&["index.md", "agent/terms/index.md",
            "fragments/characters/heine-grunwald/index.md"]), "fragments/characters/heine-grunwald/index.md")
    } else if k == 3 {
        ("地理マップから交易路を辿る", strings(&["index.md", "fragments/_index.md", "fragments/backbone/_index.md",
            "fragments/backbone/geography-map/交易路.md"]), "fragments/backbone/geography-map/交易路.md")
    } else {
        ("キャラクター一覧から関係性を見る", strings(&["index.md", "fragments/_index.md", "fragments/characters/_index.md",
            "fragments/characters/relationships/関係性.md"]), "fragments/characters/relationships/関係性.md")
    };
    assert(sv(route@) =~= query_specs()[k as int].1);
    (q, route, String::from_str(expected))
}

/// The pages that the simulated questions read (each route, then its answer
/// page): what has to be looked up before the simulation can run.
pub fn agent_query_pages() -> (r: Vec<String>)
    ensures
        forall|k: int, j: int| 0 <= k < query_specs().len() && 0 <= j < query_specs()[k].1.len()
            ==> sv(r@).contains(#[trigger] query_specs()[k].1[j]),
        forall|k: int| 0 <= k < query_specs().len() ==> sv(r@).contains(#[trigger] query_specs()[k].2),
{
    let mut out: Vec<String> = Vec::new();
    let mut k: usize = 0;
    while k < 5
        invariant
            k <= 5,
            query_specs().len() == 5,
            forall|a: int, j: int| 0 <= a < k && 0 <= j < query_specs()[a].1.len() ==> sv(out@).contains(#[trigger] query_specs()[a].1[j]),
            forall|a: int| 0 <= a < k ==> sv(out@).contains(#[trigger] query_specs()[a].2),
        decreases 5 - k,
    {
        let (_q, route, expected) = query_spec(k);
        let ghost before = sv(out@);
        let mut i: usize = 0;
        while i < route.len()
            invariant
                k < 5,
                query_specs().len() == 5,
                sv(route@) == query_specs()[k as int].1,
                i <= route@.len(),
                forall|x: Seq<char>| before.contains(x) ==> sv(out@).contains(x),
                forall|j: int| 0 <= j < i ==> sv(out@).contains(#[trigger] query_specs()[k as int].1[j]),
            decreases route@.len() - i,
        {
            let ghost b2 = sv(out@);
            out.push(route[i].clone());
            assert(sv(out@) =~= b2.push(route@[i as int]@));
            assert(sv(out@)[sv(out@).len() - 1] == query_specs()[k as int].1[i as int]);
            assert forall|x: Seq<char>| b2.contains(x) implies sv(out@).contains(x) by {
                let w = choose|w: int| 0 <= w < b2.len() && b2[w] == x;
                assert(sv(out@)[w] == x);
            }
            i = i + 1;
        }
        let ghost b3 = sv(out@);
        out.push(expected);
        assert(sv(out@) =~= b3.push(query_specs()[k as int].2));
        assert(sv(out@)[sv(out@).len() - 1] == query_specs()[k as int].2);
        assert forall|x: Seq<char>| b3.contains(x) implies sv(out@).contains(x) by {
            let w = choose|w: int| 0 <= w < b3.len() && b3[w] == x;
            assert(sv(out@)[w] == x);
        }
        k = k + 1;
    }
    out
}

fn contains_text(v: &[String], p: &str) -> (r: bool)
    ensures
        r == sv(v@).contains(p@),
{
    let mut i: usize = 0;
    while i < v.len()
        invariant
            i <= v@.len(),
            forall|j: int| 0 <= j < i ==> sv(v@)[j] != p@,
        decreases v@.len() - i,
    {
        if crate::strs::chars_eq(&crate::strs::to_chars(v[i].as_str()), &crate::strs::to_chars(p)) {
            assert(sv(v@)[i as int] == p@);
            return true;
        }
        i = i + 1;
    }
    false
}

/// Simulate the agent's questions: each reads its route and is reached
/// when every page it reads, and the page that answers it, is among `existing`.
pub fn simulate_agent_queries(existing: &[String]) -> (r: Vec<QuerySimulation>)
    ensures
        r@.len() == query_specs().len(),
        forall|k: int| 0 <= k < r@.len() ==> #[trigger] r@[k]@ == simulated(query_specs()[k], sv(existing@)),
{
    let mut out: Vec<QuerySimulation> = Vec::new();
    let mut k: usize = 0;
    while k < 5
        invariant
            k <= 5,
            query_specs().len() == 5,
            out@.len() == k,
            forall|a: int| 0 <= a < k ==> #[trigger] out@[a]@ == simulated(query_specs()[a], sv(existing@)),
        decreases 5 - k,
    {
        let (q, route, expected) = query_spec(k);
        let ghost qs = query_specs()[k as int];
        let mut all = true;
        let mut i: usize = 0;
        while i < route.len()
            invariant
                i <= route@.len(),
                sv(route@) == qs.1,
                all == (forall|j: int| 0 <= j < i ==> sv(existing@).contains(#[trigger] qs.1[j])),
            decreases route@.len() - i,
        {
            assert(qs.1[i as int] == route@[i as int]@);
            let present = contains_text(existing, route[i].as_str());
            all = all && present;
            i = i + 1;
        }
        let reached = all && contains_text(existing, expected.as_str());
        let n = route.len();
        let sim = QuerySimulation { query: q, route, expected_page: expected, read_count: n, reached };
        assert(sim@ == simulated(qs, sv(existing@)));
        out.push(sim);
        k = k + 1;
    }
    out
}

} // verus!
