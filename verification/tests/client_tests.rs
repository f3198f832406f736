use asset_client::client::{BeginFetch, FetchClient, FetchPlan, PollOutcome};
use asset_client::errors::FetchError;
use asset_client::node::{AssetData, AssetNode};
use asset_client::path::{back_path, AssetPath};
use asset_client::protocol::{classify_text, encode_request, strip_error_marker, InboundKind};

fn path(segments: &[&str]) -> AssetPath {
    let segs: Vec<String> = segments.iter().map(|s| s.to_string()).collect();
    AssetPath::from_segments(segs).expect("well-formed path")
}

fn request_frame(client: &mut FetchClient, p: &AssetPath) -> String {
    match client.begin_fetch(p) {
        BeginFetch::Request(msg) => msg,
        other => panic!("expected a request, got {:?}", other),
    }
}

#[test]
fn error_reply_fails_the_fetch_and_leaves_the_tree() {
    // Scenario: the mailbox receives `ERROR: not found`; the fetch ends
    // with Remote("not found") and the tree is unchanged.
    let mut client = FetchClient::new();
    let p = path(&["X.nx", "A", "a.img"]);
    let frame = request_frame(&mut client, &p);
    assert_eq!(frame, "{\"path\":\"X.nx/A/a.img\"}");
    assert!(matches!(client.poll(), PollOutcome::Pending));
    client.deliver_text("ERROR: not found".to_string());
    match client.poll() {
        PollOutcome::Done(Err(FetchError::Remote(msg))) => assert_eq!(msg, "not found"),
        other => panic!("expected a remote error, got {:?}", other),
    }
    assert!(!client.tree().contains_prefix(&p));
    assert!(client.tree().lookup(&p).is_none());
}

#[test]
fn loaded_reply_merges_and_yields_dependencies() {
    // Scenario: the reply holds one back layer `0` with `bS` = `town1`;
    // the fetch succeeds with exactly that dependency.
    let mut client = FetchClient::new();
    let p = path(&["X.nx", "A", "a.img"]);
    let _frame = request_frame(&mut client, &p);
    let mut layer = AssetNode::new(AssetData::Unresolved);
    layer.set_child("bS", AssetNode::new(AssetData::Text("town1".to_string())));
    let mut back = AssetNode::new(AssetData::Unresolved);
    back.set_child("0", layer);
    let mut node = AssetNode::new(AssetData::Unresolved);
    node.set_child("back", back);
    client.deliver_node(node);
    match client.poll() {
        PollOutcome::Done(Ok(deps)) => {
            assert_eq!(deps.len(), 1);
            assert_eq!(deps[0], back_path("town1"));
            assert_eq!(deps[0].segments().join("/"), "Map.nx/Back/town1.img");
        },
        other => panic!("expected success, got {:?}", other),
    }
    // The fetched subtree now stands in the cache.
    assert!(client.tree().contains_prefix(&p));
    let bs = path(&["X.nx", "A", "a.img", "back", "0", "bS"]);
    match client.tree().lookup(&bs).expect("merged").data() {
        AssetData::Text(s) => assert_eq!(s, "town1"),
        _ => panic!("expected the text payload"),
    }
}

#[test]
fn second_request_before_drain_is_rejected() {
    // Single flight: a request for pathB issued while pathA is
    // outstanding is refused, never silently cross-attributed.
    let mut client = FetchClient::new();
    let pa = path(&["X.nx", "A", "a.img"]);
    let pb = path(&["X.nx", "A", "b.img"]);
    let _frame = request_frame(&mut client, &pa);
    assert!(matches!(client.begin_fetch(&pb), BeginFetch::Rejected));
    // After the first cycle is drained, the second request goes out.
    client.deliver_text("ERROR: gone".to_string());
    assert!(matches!(client.poll(), PollOutcome::Done(Err(_))));
    assert!(matches!(client.begin_fetch(&pb), BeginFetch::Request(_)));
}

#[test]
fn contains_prefix_flips_after_a_successful_fetch() {
    // Scenario: false before any fetch, true immediately after a
    // successful fetch of a path sharing the three-segment prefix.
    let mut client = FetchClient::new();
    let p = path(&["X.nx", "A", "a.img"]);
    assert!(!client.tree().contains_prefix(&p));
    let _frame = request_frame(&mut client, &p);
    client.deliver_node(AssetNode::new(AssetData::Unresolved));
    assert!(matches!(client.poll(), PollOutcome::Done(Ok(_))));
    assert!(client.tree().contains_prefix(&p));
    // A second fetch of the same asset is skipped.
    assert!(matches!(client.begin_fetch(&p), BeginFetch::AlreadyCached));
}

#[test]
fn informational_message_does_not_end_the_wait() {
    let mut client = FetchClient::new();
    let p = path(&["X.nx", "A", "a.img"]);
    let _frame = request_frame(&mut client, &p);
    client.deliver_text("warming up".to_string());
    match client.poll() {
        PollOutcome::Notice(m) => assert_eq!(m, "warming up"),
        other => panic!("expected a notice, got {:?}", other),
    }
    // Still waiting: the mailbox is empty again, the request stands.
    assert!(matches!(client.poll(), PollOutcome::Pending));
    client.deliver_node(AssetNode::new(AssetData::Unresolved));
    assert!(matches!(client.poll(), PollOutcome::Done(Ok(_))));
}

#[test]
fn transport_failure_aborts_the_cycle() {
    let mut client = FetchClient::new();
    let p = path(&["X.nx", "A", "a.img"]);
    let _frame = request_frame(&mut client, &p);
    assert_eq!(client.transport_failed(), FetchError::Transport);
    // The client is free again.
    assert!(matches!(client.begin_fetch(&p), BeginFetch::Request(_)));
}

#[test]
fn malformed_payload_fails_that_fetch_only() {
    let mut client = FetchClient::new();
    let p = path(&["X.nx", "A", "a.img"]);
    let _frame = request_frame(&mut client, &p);
    let mut layer = AssetNode::new(AssetData::Unresolved);
    layer.set_child("bS", AssetNode::new(AssetData::Vector(0, 0)));
    let mut back = AssetNode::new(AssetData::Unresolved);
    back.set_child("0", layer);
    let mut node = AssetNode::new(AssetData::Unresolved);
    node.set_child("back", back);
    client.deliver_node(node);
    assert!(matches!(client.poll(), PollOutcome::Done(Err(FetchError::DataShape))));
    // The resolver survives and can fetch something else.
    let pb = path(&["X.nx", "A", "b.img"]);
    assert!(matches!(client.begin_fetch(&pb), BeginFetch::Request(_)));
}

#[test]
fn plan_hands_out_dependencies_in_order() {
    let deps = vec![path(&["Map.nx", "Back", "town1.img"]), path(&["Map.nx", "Obj", "house.img"])];
    let mut plan = FetchPlan::new(deps);
    assert!(!plan.is_done());
    assert_eq!(plan.next().expect("first"), path(&["Map.nx", "Back", "town1.img"]));
    assert_eq!(plan.next().expect("second"), path(&["Map.nx", "Obj", "house.img"]));
    assert!(plan.is_done());
    assert!(plan.next().is_none());
}

#[test]
fn inbound_texts_are_classified_by_their_head() {
    assert_eq!(classify_text("{\"data\":null}"), InboundKind::NodePayload);
    assert_eq!(classify_text("ERROR: not found"), InboundKind::ErrorText);
    assert_eq!(classify_text("ERRORs ahead"), InboundKind::ErrorText);
    assert_eq!(classify_text("ready"), InboundKind::InfoText);
    assert_eq!(classify_text(""), InboundKind::InfoText);
}

#[test]
fn error_marker_is_stripped() {
    assert_eq!(strip_error_marker("ERROR: not found"), "not found");
    assert_eq!(strip_error_marker("ERRORed out"), "ed out");
    assert_eq!(strip_error_marker("plain text"), "plain text");
}

#[test]
fn errors_describe_themselves() {
    assert_eq!(FetchError::Transport.describe(), "transport failure");
    assert_eq!(FetchError::Remote("not found".to_string()).describe(), "not found");
    assert_eq!(FetchError::DataShape.describe(), "unexpected payload shape");
    assert_eq!(FetchError::LockContention.describe(), "shared state unavailable");
    assert_eq!(FetchError::Busy.describe(), "a request is already in flight");
}

#[test]
fn request_frame_is_the_path_object() {
    let p = path(&["Map.nx", "Obj", "login.img"]);
    assert_eq!(encode_request(&p), "{\"path\":\"Map.nx/Obj/login.img\"}");
}
