use cable_bench::plan::{
    api_key_for, node_prompt_indices, output_path, plan_run, request_pause_ms, resolve_api_key, retain_healthy, uses_openai_api,
    Backend, NodeEntry, NodesConfig,
};

fn node(name: &str, url: &str) -> NodeEntry {
    NodeEntry { name: name.to_string(), base_url: url.to_string() }
}

#[test]
fn plan_openai_defaults() {
    let p = plan_run(Backend::Openai, None, None, "https://api.githubcopilot.com".to_string(), "http://localhost:11434".to_string(), None);
    assert_eq!(p.model, "lfm2.5-thinking:latest");
    assert_eq!(p.delay_ms, 7000);
    assert_eq!(p.nodes.len(), 1);
    assert_eq!(p.nodes[0].name, "copilot");
    assert_eq!(p.nodes[0].base_url, "https://api.githubcopilot.com");
}

#[test]
fn plan_ollama_local_defaults() {
    let p = plan_run(Backend::Ollama, None, None, "x".to_string(), "http://localhost:11434".to_string(), None);
    assert_eq!(p.model, "lfm2.5-thinking:latest");
    assert_eq!(p.delay_ms, 0);
    assert_eq!(p.nodes[0].name, "local");
    assert_eq!(p.nodes[0].base_url, "http://localhost:11434");
}

#[test]
fn plan_model_priority() {
    let cfg = || NodesConfig { nodes: vec![node("box1", "http://a"), node("box2", "http://b")], gen_model: Some("gemma4:e4b".to_string()) };
    let p = plan_run(Backend::Ollama, None, Some(cfg()), String::new(), String::new(), Some(5));
    assert_eq!(p.model, "gemma4:e4b");
    assert_eq!(p.delay_ms, 5);
    assert_eq!(p.nodes.len(), 2);
    assert_eq!(p.nodes[1].name, "box2");
    let p = plan_run(Backend::Ollama, Some("llama3.2:3b".to_string()), Some(cfg()), String::new(), String::new(), None);
    assert_eq!(p.model, "llama3.2:3b");
    let p = plan_run(Backend::Openai, Some("sonnet-large".to_string()), Some(cfg()), "https://api".to_string(), String::new(), None);
    assert_eq!(p.model, "sonnet-large");
    assert_eq!(p.nodes.len(), 1);
}

#[test]
fn api_key_priority() {
    let s = |x: &str| Some(x.to_string());
    assert_eq!(resolve_api_key(s("flag"), s("gh"), s("oa")), s("flag"));
    assert_eq!(resolve_api_key(None, s("gh"), s("oa")), s("gh"));
    assert_eq!(resolve_api_key(None, None, s("oa")), s("oa"));
    assert_eq!(resolve_api_key(None, None, None), None);
}

#[test]
fn openai_url_detection() {
    assert!(uses_openai_api("https://example.com"));
    assert!(uses_openai_api("http://my-copilot-proxy"));
    assert!(uses_openai_api("http://openai.local"));
    assert!(uses_openai_api("http://azure.host"));
    assert!(!uses_openai_api("http://localhost:11434"));
    assert!(!uses_openai_api("http://10.0.0.22:11434"));
    assert!(!uses_openai_api("xhttps://a"));
}

#[test]
fn prompts_shared_round_robin() {
    assert_eq!(node_prompt_indices(7, 3, 0), vec![0, 3, 6]);
    assert_eq!(node_prompt_indices(7, 3, 1), vec![1, 4]);
    assert_eq!(node_prompt_indices(7, 3, 2), vec![2, 5]);
    assert_eq!(node_prompt_indices(7, 1, 0), (0..7).collect::<Vec<_>>());
    assert_eq!(node_prompt_indices(0, 2, 0), Vec::<usize>::new());
}

#[test]
fn every_prompt_on_exactly_one_node() {
    let n = 50;
    let k = 3;
    let mut seen = vec![0; n];
    for node in 0..k {
        for i in node_prompt_indices(n, k, node) {
            seen[i] += 1;
        }
    }
    assert!(seen.iter().all(|&c| c == 1));
}

#[test]
fn retain_only_healthy_nodes() {
    let nodes = vec![node("a", "1"), node("b", "2"), node("c", "3")];
    let kept = retain_healthy(nodes, &vec![true, false, true]);
    assert_eq!(kept.len(), 2);
    assert_eq!(kept[0].name, "a");
    assert_eq!(kept[1].name, "c");
    assert!(retain_healthy(vec![node("a", "1")], &vec![false]).is_empty());
}

#[test]
fn output_path_defaults() {
    assert_eq!(output_path("gemma4:e4b", false, ""), "cable_bench_gemma4_e4b.json");
    assert_eq!(output_path("deepseek-r1:7b", true, ""), "cable_bench_deepseek-r1_7b_thinking.json");
    assert_eq!(output_path("a/b c", false, ""), "cable_bench_a_b_c.json");
    assert_eq!(output_path("gemma4:e4b", true, "out.json"), "out.json");
}

#[test]
fn api_key_needed_only_on_openai() {
    assert_eq!(api_key_for(Backend::Openai, None), None);
    assert_eq!(api_key_for(Backend::Openai, Some("k".to_string())), Some("k".to_string()));
    assert_eq!(api_key_for(Backend::Ollama, None), Some(String::new()));
}

#[test]
fn health_checked_only_on_ollama() {
    let p = plan_run(Backend::Openai, None, None, "https://a".to_string(), String::new(), None);
    assert!(!p.check_health);
    let p = plan_run(Backend::Ollama, None, None, String::new(), "http://l".to_string(), None);
    assert!(p.check_health);
}

#[test]
fn pause_only_before_openai_requests() {
    assert_eq!(request_pause_ms(true, 7000), 7000);
    assert_eq!(request_pause_ms(false, 7000), 0);
    assert_eq!(request_pause_ms(true, 0), 0);
}
