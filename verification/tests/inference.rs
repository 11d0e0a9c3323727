use hkask_templates::inference::{
    check_vision_images, finish_stream, map_tool_call, model_for, sse_payloads, stream_chunk, vision_fallback,
    InferenceUsage,
};

#[test]
fn sse_lines_become_payloads() {
    let body = "data: {\"a\":1}\r\n\n  data: {\"b\":2}  \nplain\n\ndata: [DONE]\n";
    assert_eq!(sse_payloads(body), vec!["{\"a\":1}".to_string(), "{\"b\":2}".to_string(), "plain".to_string()]);
    assert!(sse_payloads("").is_empty());
    assert!(sse_payloads("data: [DONE]").is_empty());
    assert_eq!(sse_payloads("data: "), Vec::<String>::new().into_iter().chain(["data:".to_string()]).collect::<Vec<_>>());
}

#[test]
fn tool_names_split_at_first_slash() {
    let args: serde_json::Value = serde_json::from_str(r#"{"q": "x"}"#).unwrap();
    let c = map_tool_call("memory/recall/deep", args.clone(), Some("call-1".into()));
    assert_eq!((c.server.as_str(), c.tool.as_str()), ("memory", "recall/deep"));
    assert_eq!(c.args, args);
    assert_eq!(c.call_id.as_deref(), Some("call-1"));
    let bare = map_tool_call("search", serde_json::Value::Null, None);
    assert_eq!((bare.server.as_str(), bare.tool.as_str()), ("", "search"));
}

#[test]
fn chunks_carry_usage_only_when_finishing() {
    let usage = InferenceUsage { prompt_tokens: 3, completion_tokens: 4, total_tokens: 7 };
    let mid = stream_chunk(Some("Hel".into()), "m".into(), None, Some(usage), vec![map_tool_call("a/b", serde_json::Value::Null, None)]);
    assert_eq!(mid.text_delta, "Hel");
    assert!(mid.usage.is_none());
    assert!(mid.tool_calls.is_empty());
    let end = stream_chunk(None, "m".into(), Some("stop".into()), Some(usage), vec![map_tool_call("a/b", serde_json::Value::Null, None)]);
    assert_eq!(end.text_delta, "");
    assert_eq!(end.usage, Some(usage));
    assert_eq!(end.tool_calls.len(), 1);
}

#[test]
fn empty_stream_gets_a_stop_chunk() {
    let r = finish_stream(vec![], "qwen3:4b".into());
    assert_eq!(r.len(), 1);
    assert_eq!(r[0].model, "qwen3:4b");
    assert_eq!(r[0].finish_reason.as_deref(), Some("stop"));
    assert_eq!(r[0].text_delta, "");
    let kept = finish_stream(vec![stream_chunk(Some("x".into()), "m".into(), None, None, vec![])], "other".into());
    assert_eq!(kept.len(), 1);
    assert_eq!(kept[0].model, "m");
}

#[test]
fn vision_rules() {
    assert_eq!(check_vision_images(0), Err("No images provided for vision inference".to_string()));
    assert_eq!(check_vision_images(2), Ok(()));
    assert_eq!(vision_fallback(Some("llava"), "qwen-vl"), Some("llava".to_string()));
    assert_eq!(vision_fallback(Some("qwen-vl"), "qwen-vl"), None);
    assert_eq!(vision_fallback(None, "qwen-vl"), None);
    assert_eq!(model_for(Some("x"), "y"), "x");
    assert_eq!(model_for(None, "y"), "y");
}
