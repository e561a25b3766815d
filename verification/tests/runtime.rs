use logwise_runtime::compat::{
    log_metadata, log_schema, log_values, render_key_values, tracing_metadata, tracing_schema,
    tracing_values, BridgeState, EnteredStack, ForeignLevel, LogwiseLayer, LogwiseLogger,
};
use logwise_runtime::foreign::{
    foreign_text_event, foreign_text_metadata, foreign_text_schema, foreign_text_values,
    ConsoleOrigin, ForeignOrigin, NativeFd,
};
use logwise_runtime::model::{
    Class, ContextToken, EventRef, Interest, Kind, Metadata, Privacy, Severity, SpanRef,
    SpanTiming, ValueRef,
};
use logwise_runtime::runtime::{ContextSlot, Runtime};
use logwise_runtime::wire::{decode_status, HostStatus, Transport};

const CORE_LOCAL: usize = 2;
const DETAIL_LOCAL: usize = 16;

fn value_text(v: &ValueRef) -> String {
    match v {
        ValueRef::Str(s) | ValueRef::Debug(s) | ValueRef::Display(s) => s.to_string(),
        ValueRef::U64(n) => n.to_string(),
        ValueRef::I64(n) => n.to_string(),
        ValueRef::Bool(b) => b.to_string(),
        ValueRef::F64Bits(b) => b.to_string(),
    }
}

#[test]
fn imports_fields_locally_and_stops_reentrant_loops() {
    let mut bridge = BridgeState::new();
    let mut slot = ContextSlot::new();
    assert!(bridge.enter(), "the first record takes the bridge");
    let key_values = render_key_values(&vec![("request_id".to_string(), "42".to_string())]);
    let schema = log_schema();
    let metadata = log_metadata(ForeignLevel::Warn, &schema);
    let interest = Interest::from_bits(CORE_LOCAL);
    let fields = log_values(
        &schema,
        interest,
        "dependency.target",
        Some("dependency::module"),
        Some("dependency.rs"),
        Some(27),
        "hello",
        &key_values,
    );
    let mut records = vec![(metadata.event_name, metadata.kind, metadata.severity, fields)];
    // A sink that logs again while the record is being delivered.
    let mut reentrant_attempts = 0;
    reentrant_attempts += 1;
    if bridge.enter() {
        records.push((metadata.event_name, metadata.kind, metadata.severity, fields));
    }
    bridge.leave();

    assert_eq!(records.len(), 1, "reentrant log record must be dropped");
    let captured = &records[0];
    assert_eq!(captured.0, "foreign.log.warn");
    assert_eq!(captured.1, Kind::AdHocText);
    assert_eq!(captured.2, Severity::Warn);
    let present: Vec<_> = captured.3.iter().flatten().collect();
    assert_eq!(present.len(), 7);
    assert!(present.iter().all(|field| field.metadata.privacy == Privacy::LocalOnly));
    assert!(present.iter().any(|field| field.metadata.name == "target" && value_text(&field.value).contains("dependency.target")));
    assert!(present.iter().any(|field| {
        field.metadata.name == "fields" && value_text(&field.value).contains("request_id") && value_text(&field.value).contains("42")
    }));
    assert_eq!(reentrant_attempts, 1);
    assert_eq!(slot.capture(), ContextToken::none());
    let _ = slot.enter(ContextToken::none());
    let _ = LogwiseLogger::new();
    let _ = LogwiseLayer::new();
}

#[test]
fn key_values_render_as_a_braced_list() {
    assert_eq!(render_key_values(&vec![]), "{}");
    assert_eq!(
        render_key_values(&vec![("a".to_string(), "1".to_string()), ("b".to_string(), "\"x\"".to_string())]),
        "{a=1, b=\"x\"}"
    );
}

#[test]
fn unwanted_fields_are_not_evaluated() {
    let schema = log_schema();
    let fields = log_values(&schema, Interest::none(), "t", None, None, None, "m", "{}");
    assert!(fields.iter().all(|f| f.is_none()));
    let schema = tracing_schema();
    let fields = tracing_values(&schema, Interest::from_bits(CORE_LOCAL), "event", "t", "n", 0, 9, "answer=42");
    assert!(matches!(fields[0].unwrap().value, ValueRef::Str("tracing")));
    assert!(matches!(fields[5].unwrap().value, ValueRef::U64(9)));
    let metadata = tracing_metadata(ForeignLevel::Error, &schema);
    assert_eq!(metadata.event_name, "foreign.tracing.error");
    assert_eq!(metadata.domain, Some("foreign.tracing"));
}

#[test]
fn exiting_spans_out_of_order_still_restores_the_entry_context() {
    let mut runtime = Runtime::new();
    let mut slot = ContextSlot::new();
    let mut stack = EnteredStack::new();
    assert_eq!(slot.capture(), ContextToken::none());

    let outer = runtime.create_context(ContextToken::none(), "outer");
    let inner = runtime.create_context(ContextToken::none(), "inner");

    stack.enter(&mut slot, 1, outer);
    let outer_context = slot.capture();
    assert!(!outer_context.is_none(), "entering a span enters its context");

    stack.enter(&mut slot, 2, inner);
    let inner_context = slot.capture();
    assert_ne!(inner_context, outer_context);

    stack.exit(&mut slot, 1);
    assert_eq!(slot.capture(), inner_context, "the inner span is still entered, so its context stays current");

    stack.exit(&mut slot, 2);
    assert_eq!(slot.capture(), ContextToken::none(), "both spans were exited, so no logwise context may still be entered");
    stack.exit(&mut slot, 3);
    assert_eq!(slot.capture(), ContextToken::none());
}

#[test]
fn contexts_record_parents_and_links_once() {
    let mut runtime = Runtime::new();
    let root = runtime.create_context(ContextToken::none(), "root");
    let related = runtime.create_context(ContextToken::none(), "related");
    let child = runtime.create_context(root, "child");
    runtime.link_context(child, related);
    runtime.link_context(child, related);
    let snapshot = runtime.context(child).expect("child snapshot");
    assert_eq!(snapshot.parent, Some(root));
    assert_eq!(snapshot.links, vec![related]);
    assert_eq!(snapshot.name, "child");
    assert!(runtime.context(ContextToken::from_parts(99, 0)).is_none());
    assert_eq!(runtime.context(root).unwrap().parent, None);
}

#[test]
fn activations_reach_descendants_until_they_expire() {
    let mut runtime = Runtime::new();
    let root = runtime.create_context(ContextToken::none(), "root");
    let related = runtime.create_context(ContextToken::none(), "related");
    let child = runtime.create_context(root, "child");
    runtime.set_interest(Interest::none());
    runtime.activate_context(root, Interest::from_bits(DETAIL_LOCAL), 60, 1_000);
    assert!(runtime.interest().is_contextual());
    assert_eq!(runtime.contextual_interest(child, 1_010), Interest::from_bits(DETAIL_LOCAL));
    assert_eq!(runtime.contextual_interest(related, 1_010), Interest::none());

    let expired = runtime.create_context(ContextToken::none(), "expired");
    runtime.activate_context(expired, Interest::from_bits(CORE_LOCAL), 0, 2_000);
    let generation = runtime.generation();
    assert!(!runtime.context_is_active(expired, 2_000));
    assert_eq!(runtime.generation(), generation + 1, "dropping expired activations advances the generation");
    assert!(!runtime.context_is_active(child, 5_000));
    assert_eq!(runtime.generation(), generation + 1);
    assert!(!runtime.interest().is_contextual());
}

#[test]
fn spans_are_attributed_to_their_captured_context() {
    let mut runtime = Runtime::new();
    let root = runtime.create_context(ContextToken::none(), "root");
    let metadata = Metadata {
        event_name: "test.wall",
        package: "tests",
        target: "tests",
        module: "tests",
        domain: None,
        severity: Severity::Debug,
        class: Class::Performance,
        kind: Kind::Event,
        location: None,
        fields: &[],
    };
    let event = EventRef { metadata: &metadata, context: root, fields: &[], message: None };
    let wall = runtime.start_span(SpanRef { event, timing: SpanTiming::WallTime, warning_threshold: Some(0) }, 100);
    let active = runtime.start_span(SpanRef { event, timing: SpanTiming::ActiveTime, warning_threshold: Some(500) }, 100);
    runtime.end_span(wall, root, 150);
    runtime.end_span(active, root, 160);
    runtime.end_span(wall, root, 170);
    let completed = runtime.take_completed_spans();
    assert_eq!(completed.len(), 2);
    assert_eq!(completed[0].context, root);
    assert_eq!(completed[0].elapsed, 50);
    assert!(completed[0].threshold_exceeded);
    assert!(!completed[1].threshold_exceeded);
    assert!(runtime.take_completed_spans().is_empty());
}

#[test]
fn foreign_text_is_quarantined_local_only() {
    assert_eq!(ForeignOrigin::PanicHook.as_str(), "rust.panic");
    assert_eq!(ForeignOrigin::NightlyRustPrint.as_str(), "rust.print.nightly");
    assert_eq!(ConsoleOrigin::Warn.as_str(), ForeignOrigin::JsConsoleWarn.as_str());
    assert_eq!(ConsoleOrigin::Error.foreign(), ForeignOrigin::JsConsoleError);
    assert_eq!(NativeFd::Stderr.raw(), 2);
    assert_eq!(NativeFd::Stdout.origin(), ForeignOrigin::RustStdout);
    let schema = foreign_text_schema();
    let metadata = foreign_text_metadata(&schema);
    assert_eq!(metadata.event_name, "foreign.text");
    assert_eq!(metadata.kind, Kind::AdHocText);
    let values = foreign_text_values(&schema, ForeignOrigin::JsConsoleWarn, "careful");
    let event = foreign_text_event(&metadata, &values, ContextToken::none());
    let fields: Vec<_> = event.fields.iter().flatten().collect();
    assert!(fields.iter().all(|f| f.metadata.privacy == Privacy::LocalOnly));
    assert!(matches!(fields[0].value, ValueRef::Str("js.console.warn")));
    assert!(matches!(fields[1].value, ValueRef::Str("careful")));
}

#[test]
fn host_status_words_decode() {
    assert_eq!(decode_status(0), HostStatus::Accepted);
    assert_eq!(decode_status(2), HostStatus::VersionMismatch);
    assert_eq!(decode_status(-7), HostStatus::HostError(-7));
    let transport = Transport::new(64);
    assert_eq!(transport.dropped(), 0);
    assert_eq!(transport.truncated(), 0);
}

#[test]
fn leaving_a_context_restores_the_one_before() {
    let mut slot = ContextSlot::new();
    let a = ContextToken::from_parts(1, 0);
    let b = ContextToken::from_parts(2, 0);
    let before_a = slot.enter(a);
    let before_b = slot.enter(b);
    assert_eq!(slot.capture(), b);
    slot.exit(before_b);
    assert_eq!(slot.capture(), a);
    slot.exit(before_a);
    assert_eq!(slot.capture(), ContextToken::none());
}

#[test]
fn completed_spans_do_not_accumulate_without_a_reader() {
    const SPANS: usize = 5_000;
    let mut runtime = Runtime::new();
    runtime.set_interest(Interest::from_bits(CORE_LOCAL));
    let metadata = Metadata {
        event_name: "integration.spans.retention",
        package: "tests",
        target: "tests",
        module: "tests",
        domain: None,
        severity: Severity::Debug,
        class: Class::Performance,
        kind: Kind::Event,
        location: None,
        fields: &[],
    };
    let context = ContextToken::none();
    let event = EventRef { metadata: &metadata, context, fields: &[], message: None };

    let before = runtime.delivery_stats().completed_spans_dropped;
    let mut last_token = 0;
    for i in 0..SPANS {
        let span = runtime.start_span(
            SpanRef { event, timing: SpanTiming::WallTime, warning_threshold: None },
            i as u64,
        );
        last_token = span.id;
        runtime.end_span(span, context, i as u64 + 1);
    }

    let dropped = runtime.delivery_stats().completed_spans_dropped - before;
    let retained = runtime.take_completed_spans();
    assert!(retained.len() < SPANS, "nothing read these spans, so the runtime must not still hold all of them");
    assert_eq!(retained.len() + dropped as usize, SPANS, "every span is either retained or accounted as dropped");
    assert!(retained.iter().all(|span| span.event_name == "integration.spans.retention"));
    // The retained window is the most recent spans, oldest first.
    assert_eq!(retained.last().unwrap().token.id, last_token);
    for pair in retained.windows(2) {
        assert_eq!(pair[0].token.id + 1, pair[1].token.id);
    }

    // Draining leaves room again.
    let span = runtime.start_span(SpanRef { event, timing: SpanTiming::WallTime, warning_threshold: None }, 0);
    runtime.end_span(span, context, 1);
    let after = runtime.take_completed_spans();
    assert_eq!(after.len(), 1);
    assert_eq!(runtime.delivery_stats().completed_spans_dropped - before, dropped);
    assert_eq!(runtime.completed_spans_dropped(), dropped);
}

#[test]
fn contexts_may_name_a_parent_issued_later() {
    let mut runtime = Runtime::new();
    // Context 1 names context 2 as its parent before 2 exists.
    let early = runtime.create_context(ContextToken::from_parts(2, 0), "early");
    let later = runtime.create_context(ContextToken::none(), "later");
    assert_eq!(later.id, 2);
    assert_eq!(runtime.context(early).unwrap().parent, Some(later));
    runtime.set_interest(Interest::none());
    runtime.activate_context(later, Interest::from_bits(DETAIL_LOCAL), 60, 1_000);
    assert_eq!(runtime.contextual_interest(early, 1_010), Interest::from_bits(DETAIL_LOCAL));

    // Two contexts that name each other: a query from elsewhere still ends.
    let mut looped = Runtime::new();
    let a = looped.create_context(ContextToken::from_parts(2, 0), "a");
    let b = looped.create_context(a, "b");
    let outside = looped.create_context(ContextToken::none(), "outside");
    looped.set_interest(Interest::none());
    looped.activate_context(outside, Interest::from_bits(DETAIL_LOCAL), 60, 1_000);
    assert_eq!(looped.contextual_interest(b, 1_010), Interest::none());
    assert_eq!(looped.contextual_interest(outside, 1_010), Interest::from_bits(DETAIL_LOCAL));
}
