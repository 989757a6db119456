//! Planning a benchmark run: which model, which nodes, which API key, how the
//! prompts are shared out among the nodes, and where the results are saved.
use vstd::prelude::*;
use crate::text::{chars_of, contains, contains_seq, occurs_at, push_char, starts_with_seq};

verus! {

/// The model used when none is given, on either backend.
pub open spec fn default_model() -> Seq<char> {
    "lfm2.5-thinking:latest"@
}

/// Delay between API requests on the OpenAI backend when none is given.
pub const OPENAI_DEFAULT_DELAY_MS: u64 = 7000;

/// The API that serves the model.
pub enum Backend {
    Ollama,
    Openai,
}

/// A node that serves the model.
pub struct NodeEntry {
    pub name: String,
    pub base_url: String,
}

/// The contents of a nodes configuration file.
pub struct NodesConfig {
    pub nodes: Vec<NodeEntry>,
    pub gen_model: Option<String>,
}

/// What a run uses: its nodes, its model, and the delay between requests.
pub struct RunPlan {
    pub nodes: Vec<NodeEntry>,
    pub model: String,
    pub delay_ms: u64,
    /// Whether the nodes are health-checked before the run (the cloud API
    /// is taken to be healthy).
    pub check_health: bool,
}

/// The (name, base URL) view of a list of nodes.
pub open spec fn node_views(nodes: Seq<NodeEntry>) -> Seq<(Seq<char>, Seq<char>)> {
    nodes.map_values(|n: NodeEntry| (n.name@, n.base_url@))
}

/// The view of an optional string.
pub open spec fn opt_view(s: Option<String>) -> Option<Seq<char>> {
    match s {
        Some(v) => Some(v@),
        None => None,
    }
}

/// The first present choice, else the fallback.
pub open spec fn first_or(a: Option<Seq<char>>, b: Option<Seq<char>>, fallback: Seq<char>) -> Seq<char> {
    match a {
        Some(v) => v,
        None => match b {
            Some(v) => v,
            None => fallback,
        },
    }
}

/// The model of a run: the `--model` flag; else, on Ollama, the
/// configuration's `gen_model`; else `lfm2.5-thinking:latest`.
pub open spec fn planned_model(backend: Backend, cli_model: Option<Seq<char>>, config_model: Option<Seq<char>>) -> Seq<char> {
    match backend {
        Backend::Openai => first_or(cli_model, None, default_model()),
        Backend::Ollama => first_or(cli_model, config_model, default_model()),
    }
}

/// The delay between requests: the flag, else 7000 ms on OpenAI and none on
/// Ollama.
pub open spec fn planned_delay(backend: Backend, flag: Option<u64>) -> u64 {
    match flag {
        Some(d) => d,
        None => match backend {
            Backend::Openai => OPENAI_DEFAULT_DELAY_MS,
            Backend::Ollama => 0,
        },
    }
}

fn first_present(a: Option<String>, b: Option<String>, fallback: &str) -> (r: String)
    ensures
        r@ == first_or(opt_view(a), opt_view(b), fallback@),
{
    match a {
        Some(v) => v,
        None => match b {
            Some(v) => v,
            None => fallback.to_owned(),
        },
    }
}

/// Decides the nodes, model and request delay of a run. On OpenAI there is
/// one node, `copilot`, at the API base; on Ollama the configured nodes when
/// a configuration was read, else one node, `local`, at the Ollama URL.
pub fn plan_run(
    backend: Backend,
    cli_model: Option<String>,
    config: Option<NodesConfig>,
    api_base: String,
    ollama: String,
    request_delay_ms: Option<u64>,
) -> (r: RunPlan)
    ensures
        r.model@ == planned_model(
            backend,
            opt_view(cli_model),
            match config {
                Some(c) => opt_view(c.gen_model),
                None => None,
            },
        ),
        r.delay_ms == planned_delay(backend, request_delay_ms),
        r.check_health == (backend is Ollama),
        match backend {
            Backend::Openai => node_views(r.nodes@) == seq![("copilot"@, api_base@)],
            Backend::Ollama => match config {
                Some(c) => r.nodes@ == c.nodes@,
                None => node_views(r.nodes@) == seq![("local"@, ollama@)],
            },
        },
{
    let delay_ms = match request_delay_ms {
        Some(d) => d,
        None => match backend {
            Backend::Openai => OPENAI_DEFAULT_DELAY_MS,
            Backend::Ollama => 0,
        },
    };
    match backend {
        Backend::Openai => {
            let model = first_present(cli_model, None, "lfm2.5-thinking:latest");
            let mut nodes: Vec<NodeEntry> = Vec::new();
            nodes.push(NodeEntry { name: "copilot".to_owned(), base_url: api_base });
            assert(node_views(nodes@) =~= seq![("copilot"@, api_base@)]);
            RunPlan { nodes, model, delay_ms, check_health: false }
        },
        Backend::Ollama => match config {
            Some(cfg) => {
                let model = first_present(cli_model, cfg.gen_model, "lfm2.5-thinking:latest");
                RunPlan { nodes: cfg.nodes, model, delay_ms, check_health: true }
            },
            None => {
                let model = first_present(cli_model, None, "lfm2.5-thinking:latest");
                let mut nodes: Vec<NodeEntry> = Vec::new();
                nodes.push(NodeEntry { name: "local".to_owned(), base_url: ollama });
                assert(node_views(nodes@) =~= seq![("local"@, ollama@)]);
                RunPlan { nodes, model, delay_ms, check_health: true }
            },
        },
    }
}

/// The first key present among the flag and the two environment variables.
pub open spec fn chosen_key(flag: Option<String>, github_token: Option<String>, openai_api_key: Option<String>) -> Option<String> {
    match flag {
        Some(k) => Some(k),
        None => match github_token {
            Some(k) => Some(k),
            None => openai_api_key,
        },
    }
}

/// The API key: the `--api-key` flag, else `GITHUB_TOKEN`, else
/// `OPENAI_API_KEY`.
pub fn resolve_api_key(
    flag: Option<String>,
    github_token: Option<String>,
    openai_api_key: Option<String>,
) -> (r: Option<String>)
    ensures
        r == chosen_key(flag, github_token, openai_api_key),
{
    match flag {
        Some(k) => Some(k),
        None => match github_token {
            Some(k) => Some(k),
            None => openai_api_key,
        },
    }
}

/// A node is reached through the OpenAI-compatible API when its URL is
/// `https://` or names copilot, openai or azure.
pub open spec fn openai_url(url: Seq<char>) -> bool {
    ||| starts_with_seq(url, "https://"@)
    ||| contains_seq(url, "copilot"@)
    ||| contains_seq(url, "openai"@)
    ||| contains_seq(url, "azure"@)
}

/// Whether requests to the node at `base_url` go through the
/// OpenAI-compatible API.
pub fn uses_openai_api(base_url: &str) -> (r: bool)
    ensures
        r == openai_url(base_url@),
{
    let url = chars_of(base_url);
    occurs_at(&url, &chars_of("https://"), 0) || contains(&url, &chars_of("copilot")) || contains(
        &url,
        &chars_of("openai"),
    ) || contains(&url, &chars_of("azure"))
}

/// The prompt indices below `n` that node `node` of `k` nodes runs: those
/// whose remainder by `k` is `node`, in increasing order.
pub open spec fn assigned(n: nat, k: nat, node: nat) -> Seq<usize>
    decreases n,
{
    if n == 0 {
        seq![]
    } else {
        assigned((n - 1) as nat, k, node) + (if (n - 1) % (k as int) == node {
            seq![(n - 1) as usize]
        } else {
            Seq::<usize>::empty()
        })
    }
}

/// The indices of the prompts that node number `node` runs, when `num_prompts`
/// prompts are shared among `num_nodes` nodes.
pub fn node_prompt_indices(num_prompts: usize, num_nodes: usize, node: usize) -> (r: Vec<usize>)
    requires
        num_nodes > 0,
    ensures
        r@ == assigned(num_prompts as nat, num_nodes as nat, node as nat),
{
    let mut out: Vec<usize> = Vec::new();
    let mut j: usize = 0;
    while j < num_prompts
        invariant
            j <= num_prompts,
            num_nodes > 0,
            out@ == assigned(j as nat, num_nodes as nat, node as nat),
        decreases num_prompts - j,
    {
        if j % num_nodes == node {
            out.push(j);
        }
        proof {
            assert(((j + 1) as nat - 1) as nat == j as nat);
        }
        j = j + 1;
    }
    out
}

/// The nodes whose health flag is set, in their order.
pub open spec fn kept(nodes: Seq<NodeEntry>, healthy: Seq<bool>) -> Seq<NodeEntry>
    decreases nodes.len(),
{
    if nodes.len() == 0 {
        seq![]
    } else {
        kept(nodes.drop_last(), healthy.drop_last()) + (if healthy[nodes.len() - 1] {
            seq![nodes.last()]
        } else {
            Seq::<NodeEntry>::empty()
        })
    }
}

/// Keeps the nodes that answered the health check.
pub fn retain_healthy(nodes: Vec<NodeEntry>, healthy: &Vec<bool>) -> (r: Vec<NodeEntry>)
    requires
        healthy.len() == nodes.len(),
    ensures
        r@ == kept(nodes@, healthy@),
{
    let ghost all = nodes@;
    let ghost flags = healthy@;
    let mut rest = nodes;
    let mut out: Vec<NodeEntry> = Vec::new();
    let n = healthy.len();
    let mut i: usize = 0;
    while i < n
        invariant
            n == all.len(),
            flags == healthy@,
            healthy.len() == n,
            i <= n,
            rest@ == all.skip(i as int),
            out@ == kept(all.take(i as int), flags.take(i as int)),
        decreases n - i,
    {
        let node = rest.remove(0);
        proof {
            assert(all.take(i + 1).drop_last() =~= all.take(i as int));
            assert(flags.take(i + 1).drop_last() =~= flags.take(i as int));
            assert(all.take(i + 1).last() == node);
            assert(all.skip(i as int).remove(0) =~= all.skip(i + 1));
        }
        if healthy[i] {
            out.push(node);
        }
        i = i + 1;
    }
    assert(all.take(n as int) =~= all);
    assert(flags.take(n as int) =~= flags);
    out
}

/// `s` with every `:`, `/` and space replaced by `_` (what
/// `str::replace([':', '/', ' '], "_")` returns).
pub open spec fn file_safe(s: Seq<char>) -> Seq<char> {
    s.map_values(|c: char| if c == ':' || c == '/' || c == ' ' { '_' } else { c })
}

/// Where a run's results are saved: the `--output` flag when it is not
/// empty, else `cable_bench_{model}.json` (with `_thinking` before `.json`
/// for a thinking model), the model made file-safe.
pub open spec fn output_path_spec(model: Seq<char>, thinking_model: bool, output: Seq<char>) -> Seq<char> {
    if output.len() == 0 {
        "cable_bench_"@ + file_safe(model) + (if thinking_model {
            "_thinking"@
        } else {
            Seq::<char>::empty()
        }) + ".json"@
    } else {
        output
    }
}

/// The file that a run's results are written to.
pub fn output_path(model: &str, thinking_model: bool, output: &str) -> (r: String)
    ensures
        r@ == output_path_spec(model@, thinking_model, output@),
{
    if !output.is_empty() {
        return output.to_owned();
    }
    let chars = chars_of(model);
    let mut path = String::new();
    path.append("cable_bench_");
    let ghost start = path@;
    let mut i: usize = 0;
    while i < chars.len()
        invariant
            i <= chars.len(),
            chars@ == model@,
            path@ == start + file_safe(model@).take(i as int),
        decreases chars.len() - i,
    {
        let c = chars[i];
        let safe = if c == ':' || c == '/' || c == ' ' {
            '_'
        } else {
            c
        };
        push_char(&mut path, safe);
        assert(file_safe(model@).take(i + 1) =~= file_safe(model@).take(i as int).push(safe));
        i = i + 1;
    }
    assert(file_safe(model@).take(i as int) =~= file_safe(model@));
    if thinking_model {
        path.append("_thinking");
    }
    path.append(".json");
    path
}

/// Every prompt is run by exactly one node: node `j % k` of `k` nodes runs
/// prompt `j`, and no other node does.
pub proof fn lemma_each_prompt_on_one_node(n: nat, k: nat, j: nat, node: nat)
    requires
        k > 0,
        j < n,
        n <= usize::MAX,
    ensures
        assigned(n, k, (j % k) as nat).contains(j as usize),
        node != j % k ==> !assigned(n, k, node).contains(j as usize),
{
    lemma_assigned_members(n, k, (j % k) as nat);
    lemma_assigned_members(n, k, node);
    let i = lemma_assigned_position(n, k, j);
    assert(assigned(n, k, (j % k) as nat)[i] == j as usize);
}

proof fn lemma_assigned_members(n: nat, k: nat, node: nat)
    requires
        k > 0,
        n <= usize::MAX,
    ensures
        forall|x: usize| #[trigger] assigned(n, k, node).contains(x) ==> x < n && (x as int) % (k as int) == node,
    decreases n,
{
    if n > 0 {
        lemma_assigned_members((n - 1) as nat, k, node);
        let prev = assigned((n - 1) as nat, k, node);
        let tail = if (n - 1) % (k as int) == node {
            seq![(n - 1) as usize]
        } else {
            Seq::<usize>::empty()
        };
        assert forall|x: usize| #[trigger] assigned(n, k, node).contains(x) implies x < n && (x as int) % (k as int) == node by {
            let i = choose|i: int| 0 <= i < assigned(n, k, node).len() && assigned(n, k, node)[i] == x;
            if i < prev.len() {
                assert(prev[i] == x);
                assert(prev.contains(x));
            } else {
                assert(tail[i - prev.len()] == x);
            }
        }
    }
}

proof fn lemma_assigned_position(n: nat, k: nat, j: nat) -> (i: int)
    requires
        k > 0,
        j < n,
        n <= usize::MAX,
    ensures
        0 <= i < assigned(n, k, (j % k) as nat).len(),
        assigned(n, k, (j % k) as nat)[i] == j as usize,
    decreases n,
{
    let node = (j % k) as nat;
    let prev = assigned((n - 1) as nat, k, node);
    if j == n - 1 {
        assert(assigned(n, k, node) =~= prev + seq![j as usize]);
        prev.len() as int
    } else {
        let i = lemma_assigned_position((n - 1) as nat, k, j);
        assert(assigned(n, k, node)[i] == prev[i]);
        i
    }
}

/// A model named with `--model` is the model of the run, whatever the
/// backend and the configuration say.
pub proof fn lemma_cli_model_wins(backend: Backend, cli_model: Seq<char>, config_model: Option<Seq<char>>)
    ensures
        planned_model(backend, Some(cli_model), config_model) == cli_model,
{
}

/// A configured `gen_model` is used on Ollama when no `--model` is given.
pub proof fn lemma_config_model_before_default(config_model: Seq<char>)
    ensures
        planned_model(Backend::Ollama, None, Some(config_model)) == config_model,
{
}

/// The model part of a default output file name holds no `:`, `/` or space.
pub proof fn lemma_file_safe_clean(model: Seq<char>)
    ensures
        file_safe(model).len() == model.len(),
        forall|i: int|
            0 <= i < model.len() ==> {
                let c = #[trigger] file_safe(model)[i];
                c != ':' && c != '/' && c != ' '
            },
{
}
/// Without `--model`, and on OpenAI or without a configured `gen_model`,
/// a run uses `lfm2.5-thinking:latest`.
pub proof fn lemma_default_model(backend: Backend, config_model: Option<Seq<char>>)
    requires
        backend is Openai || config_model is None,
    ensures
        planned_model(backend, None, config_model) == default_model(),
{
}

/// The key a run authenticates with: on OpenAI the resolved key, and no
/// run when there is none; on Ollama no key is needed, so it is empty.
pub fn api_key_for(backend: Backend, resolved: Option<String>) -> (r: Option<String>)
    ensures
        match backend {
            Backend::Openai => r == resolved,
            Backend::Ollama => r matches Some(k) && k@ == Seq::<char>::empty(),
        },
{
    match backend {
        Backend::Openai => resolved,
        Backend::Ollama => Some(String::new()),
    }
}
/// Milliseconds to pause before each request to a node: the run's delay
/// for a node reached through the OpenAI-compatible API, none for an Ollama
/// node.
pub fn request_pause_ms(openai_node: bool, delay_ms: u64) -> (r: u64)
    ensures
        r == (if openai_node {
            delay_ms
        } else {
            0
        }),
{
    if openai_node {
        delay_ms
    } else {
        0
    }
}

/// A `--request-delay-ms` flag is the run's delay on either backend;
/// without it OpenAI runs wait 7000 ms between requests and Ollama runs do
/// not wait.
pub proof fn lemma_delay_flag_wins(backend: Backend, d: u64)
    ensures
        planned_delay(backend, Some(d)) == d,
        planned_delay(Backend::Openai, None) == 7000,
        planned_delay(Backend::Ollama, None) == 0,
{
}

/// A non-empty `--output` is the results file, for every model and whether
/// or not it is a thinking model; without it the file is named
/// `cable_bench_…​.json` after the model.
pub proof fn lemma_output_flag_wins(model: Seq<char>, thinking_model: bool, output: Seq<char>)
    ensures
        output.len() > 0 ==> output_path_spec(model, thinking_model, output) == output,
        output.len() == 0 ==> {
            let p = output_path_spec(model, thinking_model, output);
            &&& p.take(12) == "cable_bench_"@
            &&& p.subrange(12, 12 + model.len() as int) == file_safe(model)
            &&& p.skip(p.len() - 5) == ".json"@
            &&& p.len() == 12 + model.len() + (if thinking_model { 9int } else { 0int }) + 5
        },
{
    if output.len() == 0 {
        let p = output_path_spec(model, thinking_model, output);
        let mid: Seq<char> = if thinking_model { "_thinking"@ } else { Seq::<char>::empty() };
        reveal_strlit("cable_bench_");
        reveal_strlit(".json");
        reveal_strlit("_thinking");
        assert(p =~= "cable_bench_"@ + file_safe(model) + mid + ".json"@);
        assert(p.take(12) =~= "cable_bench_"@);
        assert(p.subrange(12, 12 + model.len() as int) =~= file_safe(model));
        assert(p.skip(p.len() - 5) =~= ".json"@);
    }
}

/// Filtering nodes by their flags works piece by piece: the kept nodes of
/// two lists side by side are the kept nodes of each.
pub proof fn lemma_kept_concat(a: Seq<NodeEntry>, ha: Seq<bool>, b: Seq<NodeEntry>, hb: Seq<bool>)
    requires
        ha.len() == a.len(),
        hb.len() == b.len(),
    ensures
        kept(a + b, ha + hb) == kept(a, ha) + kept(b, hb),
    decreases b.len(),
{
    if b.len() == 0 {
        assert(a + b =~= a);
        assert(ha + hb =~= ha);
        assert(kept(a, ha) + kept(b, hb) =~= kept(a, ha));
    } else {
        lemma_kept_concat(a, ha, b.drop_last(), hb.drop_last());
        assert((a + b).drop_last() =~= a + b.drop_last());
        assert((ha + hb).drop_last() =~= ha + hb.drop_last());
        assert((a + b).last() == b.last());
        assert((ha + hb)[(a + b).len() - 1] == hb[b.len() - 1]);
        assert(kept(a + b, ha + hb) =~= kept(a, ha) + kept(b, hb));
    }
}

/// Each node is judged by its own flag: a lone node is kept exactly when
/// its flag is set.
pub proof fn lemma_kept_single(n: NodeEntry, flag: bool)
    ensures
        kept(seq![n], seq![flag]) == (if flag {
            seq![n]
        } else {
            Seq::<NodeEntry>::empty()
        }),
{
    assert(seq![n].drop_last() =~= Seq::<NodeEntry>::empty());
    assert(seq![flag].drop_last() =~= Seq::<bool>::empty());
    assert(seq![n].last() == n);
    assert(seq![flag][0] == flag);
    assert(kept(Seq::<NodeEntry>::empty(), Seq::<bool>::empty()) =~= Seq::<NodeEntry>::empty());
    assert(kept(seq![n], seq![flag]) =~= (if flag {
        seq![n]
    } else {
        Seq::<NodeEntry>::empty()
    }));
}

/// The node at position `i` survives the health filter exactly when its own
/// flag is set (for nodes that are not repeated), and every kept node has
/// its flag set.
pub proof fn lemma_kept_by_own_flag(nodes: Seq<NodeEntry>, healthy: Seq<bool>, i: int)
    requires
        healthy.len() == nodes.len(),
        0 <= i < nodes.len(),
        forall|j: int| 0 <= j < nodes.len() && j != i ==> nodes[j] != nodes[i],
    ensures
        kept(nodes, healthy).contains(nodes[i]) <==> healthy[i],
{
    let a = nodes.take(i);
    let b = nodes.skip(i + 1);
    let ha = healthy.take(i);
    let hb = healthy.skip(i + 1);
    assert(nodes =~= a + seq![nodes[i]] + b);
    assert(healthy =~= ha + seq![healthy[i]] + hb);
    lemma_kept_concat(a, ha, seq![nodes[i]], seq![healthy[i]]);
    lemma_kept_concat(a + seq![nodes[i]], ha + seq![healthy[i]], b, hb);
    lemma_kept_single(nodes[i], healthy[i]);
    lemma_kept_members(a, ha);
    lemma_kept_members(b, hb);
    let r = kept(nodes, healthy);
    let mid: Seq<NodeEntry> = if healthy[i] { seq![nodes[i]] } else { Seq::<NodeEntry>::empty() };
    assert(r =~= kept(a, ha) + mid + kept(b, hb));
    if healthy[i] {
        assert(r[kept(a, ha).len() as int] == nodes[i]);
    } else {
        if r.contains(nodes[i]) {
            let m = choose|m: int| 0 <= m < r.len() && r[m] == nodes[i];
            if m < kept(a, ha).len() {
                assert(kept(a, ha).contains(nodes[i]));
                let j = choose|j: int| 0 <= j < a.len() && a[j] == nodes[i];
                assert(a[j] == nodes[j]);
            } else {
                assert(kept(b, hb)[m - kept(a, ha).len()] == nodes[i]);
                assert(kept(b, hb).contains(nodes[i]));
                let j = choose|j: int| 0 <= j < b.len() && b[j] == nodes[i];
                assert(b[j] == nodes[i + 1 + j]);
            }
        }
    }
}

/// Every kept node is one of the input nodes, and its flag is set.
pub proof fn lemma_kept_members(nodes: Seq<NodeEntry>, healthy: Seq<bool>)
    requires
        healthy.len() == nodes.len(),
    ensures
        forall|x: NodeEntry|
            #[trigger] kept(nodes, healthy).contains(x) ==> exists|j: int|
                0 <= j < nodes.len() && nodes[j] == x && healthy[j],
        kept(nodes, healthy).len() <= nodes.len(),
    decreases nodes.len(),
{
    if nodes.len() > 0 {
        let d = nodes.drop_last();
        let hd = healthy.drop_last();
        lemma_kept_members(d, hd);
        let last: Seq<NodeEntry> = if healthy[nodes.len() - 1] {
            seq![nodes.last()]
        } else {
            Seq::<NodeEntry>::empty()
        };
        assert forall|x: NodeEntry| #[trigger] kept(nodes, healthy).contains(x) implies exists|j: int|
            0 <= j < nodes.len() && nodes[j] == x && healthy[j] by {
            let r = kept(nodes, healthy);
            let m = choose|m: int| 0 <= m < r.len() && r[m] == x;
            if m < kept(d, hd).len() {
                assert(kept(d, hd)[m] == x);
                assert(kept(d, hd).contains(x));
                let j = choose|j: int| 0 <= j < d.len() && d[j] == x && hd[j];
                assert(nodes[j] == x && healthy[j]);
            } else {
                assert(x == nodes[nodes.len() - 1]);
                assert(healthy[nodes.len() - 1]);
            }
        }
    }
}
/// Which nodes go through the OpenAI-compatible API: every `https://` URL,
/// and every URL that names copilot, openai or azure; no other.
pub proof fn lemma_openai_urls(url: Seq<char>)
    ensures
        starts_with_seq(url, "https://"@) ==> openai_url(url),
        contains_seq(url, "copilot"@) ==> openai_url(url),
        contains_seq(url, "openai"@) ==> openai_url(url),
        contains_seq(url, "azure"@) ==> openai_url(url),
        openai_url(url) ==> starts_with_seq(url, "https://"@) || contains_seq(url, "copilot"@)
            || contains_seq(url, "openai"@) || contains_seq(url, "azure"@),
{
}
/// The key order: a given `--api-key` is used whatever the environment
/// holds; without it `GITHUB_TOKEN` is used before `OPENAI_API_KEY`; with
/// none of them there is no key.
pub proof fn lemma_key_order(k: String, g: Option<String>, o: Option<String>)
    ensures
        chosen_key(Some(k), g, o) == Some(k),
        g matches Some(t) ==> chosen_key(None, g, o) == Some(t),
        chosen_key(None, None, o) == o,
        chosen_key(None, None, None) is None,
{
}
} // verus!
