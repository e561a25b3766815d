use logwise_runtime::flight::{FlightCursor, FlightRecorder, RecorderView};
use logwise_runtime::model::{
    Class, ContextToken, Detail, FieldMetadata, Kind, Metadata, Privacy, Severity, ValueRef,
};
use logwise_runtime::sinks::{
    AsyncState, DetailLevel, FlushError, FlushErrorKind, InMemorySink, OverflowPolicy, OwnedProjectedEvent,
    OwnedValue, ProjectedEvent, ProjectedField, SinkStats, StructuredWriter, WorkerTake, console_line, structured_line,
};

fn metadata() -> Metadata<'static> {
    Metadata {
        event_name: "test.event",
        package: "tests",
        target: "tests",
        module: "tests",
        domain: None,
        severity: Severity::Info,
        class: Class::Operational,
        kind: Kind::Event,
        location: None,
        fields: &[],
    }
}

fn field<'a>(name: &'a str, privacy: Privacy, value: ValueRef<'a>) -> ProjectedField<'a> {
    ProjectedField { name, privacy, detail: Detail::Core, value }
}

fn event<'a>(m: &'a Metadata<'a>, fields: Vec<ProjectedField<'a>>, message: Option<&'a str>) -> ProjectedEvent<'a> {
    ProjectedEvent { metadata: m, context: ContextToken::from_parts(5, 0), fields, message, omitted_fields: 1 }
}

fn text(v: &OwnedValue) -> &str {
    match v {
        OwnedValue::String(s) => s.as_str(),
        _ => panic!("expected text"),
    }
}

#[test]
fn owned_copies_bound_text_at_character_boundaries() {
    let m = metadata();
    let e = event(
        &m,
        vec![
            field("label", Privacy::SupportSafe, ValueRef::Str("héllo")),
            field("n", Privacy::LocalOnly, ValueRef::U64(7)),
            field("d", Privacy::LocalOnly, ValueRef::Debug("\"quoted\"")),
        ],
        Some("a long message"),
    );
    let o = OwnedProjectedEvent::copy_from(e, 2);
    assert_eq!(text(&o.fields[0].value), "h");
    assert!(matches!(o.fields[1].value, OwnedValue::U64(7)));
    assert_eq!(text(&o.fields[2].value), "\"q");
    assert_eq!(o.message.as_deref(), Some("a "));
    assert_eq!(o.truncated_fields, 3);
    assert_eq!(o.omitted_fields, 1);
    assert_eq!(o.context, ContextToken::from_parts(5, 0));
}

#[test]
fn in_memory_sink_policies_account_for_every_record() {
    let m = metadata();
    let mut drop_newest = InMemorySink::new(2, 64, OverflowPolicy::DropNewest);
    for _ in 0..3 {
        drop_newest.emit(event(&m, vec![], Some("x")));
    }
    assert_eq!(drop_newest.stats(), SinkStats { accepted: 2, dropped: 1, overwritten: 0, truncated: 0, write_errors: 0 });
    assert_eq!(drop_newest.drain().len(), 2);
    assert!(drop_newest.drain().is_empty());

    let mut overwrite = InMemorySink::new(2, 64, OverflowPolicy::OverwriteOldest);
    overwrite.emit(event(&m, vec![], Some("first")));
    overwrite.emit(event(&m, vec![], Some("second")));
    overwrite.emit(event(&m, vec![], Some("third")));
    assert_eq!(overwrite.stats().overwritten, 1);
    assert_eq!(overwrite.stats().accepted, 3);
    let kept = overwrite.drain();
    assert_eq!(kept[0].message.as_deref(), Some("second"));
    assert_eq!(kept[1].message.as_deref(), Some("third"));

    let mut none = InMemorySink::new(0, 64, OverflowPolicy::OverwriteOldest);
    none.emit(event(&m, vec![], Some("lost")));
    assert_eq!(none.stats().dropped, 1);
    assert!(none.drain().is_empty());
}

#[test]
fn defaults_match_the_documented_choices() {
    assert_eq!(OverflowPolicy::default(), OverflowPolicy::DropNewest);
    assert_eq!(DetailLevel::default(), DetailLevel::Core);
    assert_eq!(SinkStats::default().accepted, 0);
    assert_eq!(RecorderView::default(), RecorderView::Local);
    assert_eq!(FlightCursor::default(), FlightCursor(0));
    let writer = StructuredWriter::new(vec![1u8, 2]);
    assert_eq!(writer.into_inner(), vec![1u8, 2]);
}

#[test]
fn async_queue_guards_records_a_barrier_covers() {
    let m = metadata();
    let mut st = AsyncState::new(2, 64, OverflowPolicy::OverwriteOldest);
    assert!(st.emit(event(&m, vec![], Some("a"))));
    assert!(st.emit(event(&m, vec![], Some("b"))));
    let target = st.request_flush();
    assert_eq!(target, 2);
    assert!(!st.emit(event(&m, vec![], Some("c"))), "a barrier-covered record may not be overwritten");
    assert_eq!(st.stats.dropped, 1);
    assert_eq!(st.barrier_result(target), None);

    let first = match st.take_next() {
        WorkerTake::Event(e) => e,
        _ => panic!("a record is queued"),
    };
    assert_eq!(first.sequence, 1);
    st.record_write(first.sequence, None);
    assert!(!st.flush_due());
    let second = match st.take_next() {
        WorkerTake::Event(e) => e,
        _ => panic!("a record is queued"),
    };
    st.record_write(second.sequence, None);
    assert!(st.flush_due());
    st.record_flush(None);
    assert_eq!(st.barrier_result(target), Some(Ok(())));
    assert!(matches!(st.take_next(), WorkerTake::Wait));

    st.begin_shutdown();
    assert!(matches!(st.take_next(), WorkerTake::Proceed));
    assert!(st.should_stop());
    assert!(!st.stop());
    assert!(!st.emit(event(&m, vec![], Some("late"))));
    assert_eq!(st.stats.accepted, 2);
}

#[test]
fn async_barrier_reports_errors() {
    let m = metadata();
    let mut st = AsyncState::new(4, 64, OverflowPolicy::DropNewest);
    st.emit(event(&m, vec![], None));
    let target = st.request_flush();
    let e = match st.take_next() {
        WorkerTake::Event(e) => e,
        _ => panic!("queued"),
    };
    st.record_write(e.sequence, Some(FlushError { kind: FlushErrorKind::Io(std::io::ErrorKind::Other), message: "disk".to_string() }));
    st.record_flush(None);
    let outcome = st.barrier_result(target).unwrap().unwrap_err();
    assert_eq!(outcome.message, "disk");
    assert_eq!(st.stats.write_errors, 1);

    let mut dead = AsyncState::new(4, 64, OverflowPolicy::DropNewest);
    dead.emit(event(&m, vec![], None));
    let t = dead.request_flush();
    dead.worker_failed();
    let stopped = dead.barrier_result(t).unwrap().unwrap_err();
    assert_eq!(stopped.kind, FlushErrorKind::BrokenPipe);
    assert_eq!(stopped.message, "logwise sink worker stopped before the barrier");
}

#[test]
fn recorder_drops_secrets_at_ingress_and_projects_remote_reads() {
    let m = metadata();
    let mut fr = FlightRecorder::with_shards(4, 64, 2);
    fr.emit(
        event(
            &m,
            vec![
                field("safe", Privacy::SupportSafe, ValueRef::U64(1)),
                field("local", Privacy::LocalOnly, ValueRef::U64(2)),
                field("secret", Privacy::Secret, ValueRef::Str("pw")),
            ],
            Some("ad hoc"),
        ),
        0,
    );
    let local = fr.read_since(FlightCursor(0), RecorderView::Local);
    assert_eq!(local.records.len(), 1);
    assert_eq!(local.records[0].event.fields.len(), 2);
    assert_eq!(local.records[0].event.omitted_fields, 2);
    assert_eq!(local.records[0].event.message.as_deref(), Some("ad hoc"));
    let remote = fr.read_since(FlightCursor(0), RecorderView::Remote);
    assert_eq!(remote.records[0].event.fields.len(), 1);
    assert_eq!(remote.records[0].event.fields[0].name, "safe");
    assert_eq!(remote.records[0].event.omitted_fields, 3);
    assert!(remote.records[0].event.message.is_none());
    assert!(remote.is_complete());
    assert_eq!(remote.next_cursor, FlightCursor(1));
}

#[test]
fn recorder_reads_are_ordered_bounded_and_resumable() {
    let m = metadata();
    let mut fr = FlightRecorder::with_shards(3, 64, 2);
    for i in 0..5usize {
        fr.emit(event(&m, vec![], None), i);
    }
    let all = fr.read_since(FlightCursor(0), RecorderView::Local);
    let seqs: Vec<u64> = all.records.iter().map(|r| r.sequence).collect();
    assert_eq!(seqs, vec![3, 4, 5]);
    assert_eq!(all.overwritten_total, 2);
    assert_eq!(all.next_cursor, FlightCursor(5));

    let later = fr.read_since(FlightCursor(4), RecorderView::Local);
    assert_eq!(later.records.iter().map(|r| r.sequence).collect::<Vec<_>>(), vec![5]);

    let partial = fr.read_partial(FlightCursor(0), RecorderView::Local, &[true, false]);
    assert_eq!(partial.busy_shards, 1);
    assert_eq!(partial.next_cursor, FlightCursor(0), "a partial read does not advance the cursor");
    assert!(!partial.is_complete());
    assert_eq!(partial.records.iter().map(|r| r.sequence).collect::<Vec<_>>(), vec![4]);

    let tail = fr.tail(2, RecorderView::Local);
    assert_eq!(tail.records.iter().map(|r| r.sequence).collect::<Vec<_>>(), vec![4, 5]);

    let mut empty = FlightRecorder::with_shards(0, 64, 8);
    empty.emit(event(&m, vec![], None), 3);
    assert_eq!(empty.stats().dropped, 1);
    assert!(empty.read_since(FlightCursor(0), RecorderView::Local).records.is_empty());
}

#[test]
fn structured_lines_name_the_severity_event_message_and_fields() {
    let m = metadata();
    let e = event(
        &m,
        vec![
            field("label", Privacy::SupportSafe, ValueRef::Str("a\"b")),
            field("n", Privacy::LocalOnly, ValueRef::U64(7)),
            field("delta", Privacy::LocalOnly, ValueRef::I64(-42)),
            field("low", Privacy::LocalOnly, ValueRef::I64(i64::MIN)),
            field("ok", Privacy::LocalOnly, ValueRef::Bool(true)),
            field("ratio", Privacy::LocalOnly, ValueRef::F64Bits(1.5f64.to_bits())),
        ],
        Some("done"),
    );
    let o = OwnedProjectedEvent::copy_from(e, 64);
    let floats = vec![String::new(), String::new(), String::new(), String::new(), String::new(), "1.5".to_string()];
    assert_eq!(
        structured_line(&o, &floats),
        "Info test.event done label=String(\"a\\\"b\") n=U64(7) delta=I64(-42) low=I64(-9223372036854775808) ok=Bool(true) ratio=F64(1.5)\n"
    );
    let bare = OwnedProjectedEvent::copy_from(event(&m, vec![], None), 64);
    assert_eq!(structured_line(&bare, &vec![]), "Info test.event\n");
}

#[test]
fn two_reads_of_one_recorder_state_agree() {
    let m = metadata();
    let mut fr = FlightRecorder::with_shards(8, 64, 3);
    for i in 0..20usize {
        fr.emit(event(&m, vec![field("n", Privacy::SupportSafe, ValueRef::U64(i as u64))], None), i * 7);
    }
    let first = fr.read_since(FlightCursor(0), RecorderView::Remote);
    let second = fr.read_since(FlightCursor(0), RecorderView::Remote);
    let seqs = |read: &logwise_runtime::flight::FlightRead<'_>| read.records.iter().map(|r| r.sequence).collect::<Vec<_>>();
    assert_eq!(seqs(&first), seqs(&second));
    assert!(first.records.len() <= 8, "a read never exceeds the capacity");
    assert_eq!(fr.stats().accepted, first.next_cursor.0, "accepted equals the last sequence issued");
    let tail = fr.tail(3, RecorderView::Remote);
    let full = seqs(&first);
    assert_eq!(seqs(&tail), full[full.len() - 3..].to_vec());
}

#[test]
fn every_accepted_record_is_written_or_overwritten_once_in_order() {
    let m = metadata();
    let mut st = AsyncState::new(2, 64, OverflowPolicy::OverwriteOldest);
    for _ in 0..3 {
        assert!(st.emit(event(&m, vec![], None)));
    }
    assert_eq!(st.stats.overwritten, 1, "the oldest record made room");
    let mut written = Vec::new();
    loop {
        match st.take_next() {
            WorkerTake::Event(e) => {
                st.record_write(e.sequence, None);
                written.push(e.sequence);
            }
            _ => break,
        }
    }
    assert_eq!(written, vec![2, 3], "written in increasing order, none twice");
    st.begin_shutdown();
    assert!(st.should_stop());
    assert!(st.stop(), "a last flush is owed for the unflushed writes");
    assert_eq!(st.flushed_sequence, 3);
    assert_eq!(st.stats.accepted as usize, written.len() + st.stats.overwritten as usize);
}

#[test]
fn console_lines_show_fields_and_omissions() {
    let m = metadata();
    let e = event(
        &m,
        vec![
            field("label", Privacy::SupportSafe, ValueRef::Str("x")),
            field("d", Privacy::LocalOnly, ValueRef::Debug("[1, 2]")),
            field("s", Privacy::LocalOnly, ValueRef::Display("shown")),
            field("r", Privacy::LocalOnly, ValueRef::F64Bits(0.25f64.to_bits())),
        ],
        Some("hi"),
    );
    let floats = vec![String::new(), String::new(), String::new(), "0.25".to_string()];
    assert_eq!(
        console_line(&e, &floats),
        "Info test.event hi label=Str(\"x\") d=Debug([1, 2]) s=Display(shown) r=F64(0.25) omitted=1"
    );
}

#[test]
fn a_recorder_keeps_records_whose_hidden_fields_would_overflow_a_remote_read() {
    let m = metadata();
    let mut fr = FlightRecorder::with_shards(2, 64, 1);
    let e = ProjectedEvent {
        metadata: &m,
        context: ContextToken::from_parts(1, 0),
        fields: vec![field("local", Privacy::LocalOnly, ValueRef::U64(1))],
        message: None,
        omitted_fields: usize::MAX,
    };
    fr.emit(e, 0);
    assert_eq!(fr.stats().accepted, 1);
    assert_eq!(fr.next_sequence(), 1);
    assert!(fr.fits(RecorderView::Local), "the local view hides nothing more");
    assert!(!fr.fits(RecorderView::Remote), "hiding the local-only field would overflow the omitted count");
    let read = fr.read_since(FlightCursor(0), RecorderView::Local);
    assert_eq!(read.records.len(), 1);
    assert_eq!(read.records[0].event.omitted_fields, usize::MAX);
}
