use paint::streams::{FlatMapPoll, FlatMapStep, ScanStep, TryFlatMap, TryFlatMapSelect, YieldError};

#[test]
fn yield_error_yields_once() {
    let mut y: YieldError<(), &str> = Err("boom").into();
    assert_eq!(y.take_error(), Some("boom"));
    assert_eq!(y.take_error(), None);
    match YieldError::<u8, &str>::from_result(Ok(3)) {
        YieldError::Stream(s) => assert_eq!(s, 3),
        YieldError::Failure(_) => panic!("expected the stream"),
    }
}

#[test]
fn flat_map_reads_inner_streams_in_turn() {
    let mut m: TryFlatMap<Vec<u32>> = TryFlatMap::new();
    assert!(!m.reading_inner());
    assert!(matches!(m.step::<u32, &str>(FlatMapPoll::Source(Some(Ok(vec![1, 2])))), FlatMapStep::Again));
    assert!(m.reading_inner());
    let item = m.inner_mut().remove(0);
    assert!(matches!(m.step::<u32, &str>(FlatMapPoll::Inner(Some(item))), FlatMapStep::Yield(1)));
    assert_eq!(m.inner_mut(), &mut vec![2]);
    assert!(matches!(m.step::<u32, &str>(FlatMapPoll::Inner(None)), FlatMapStep::Again));
    assert!(!m.reading_inner());
    assert!(matches!(m.step::<u32, &str>(FlatMapPoll::Source(Some(Err("e")))), FlatMapStep::Fail("e")));
    assert!(matches!(m.step::<u32, &str>(FlatMapPoll::Source(None)), FlatMapStep::End));
}

#[test]
fn select_drops_finished_streams() {
    let mut m: TryFlatMapSelect<char> = TryFlatMapSelect::new();
    assert_eq!(m.source_polled::<&str>(Some(Ok('a'))), None);
    assert_eq!(m.source_polled::<&str>(Some(Ok('b'))), None);
    assert_eq!(m.source_polled::<&str>(Some(Ok('c'))), None);
    assert_eq!(m.len(), 3);
    // 'a' ends: 'c' takes its place and is polled next
    assert!(matches!(m.stream_polled::<u8>(0, Some(None)), ScanStep::Continue(0)));
    assert_eq!(*m.stream_mut(0), 'c');
    assert_eq!(m.len(), 2);
    // 'c' is not ready: move on to 'b'
    assert!(matches!(m.stream_polled::<u8>(0, None), ScanStep::Continue(1)));
    assert!(matches!(m.stream_polled::<u8>(1, Some(Some(7))), ScanStep::Yield(7)));
    assert!(!m.exhausted());
    assert_eq!(m.source_polled::<&str>(Some(Err("bad"))), Some("bad"));
    assert!(!m.source_finished());
    assert_eq!(m.source_polled::<&str>(None), None);
    assert!(m.source_finished());
    let _ = m.stream_polled::<u8>(0, Some(None));
    let _ = m.stream_polled::<u8>(0, Some(None));
    assert!(m.exhausted());
}

#[test]
fn yield_error_branches() {
    match YieldError::<u8, &str>::from_output(4).branch() {
        Ok(s) => assert_eq!(s, 4),
        Err(_) => panic!("expected the stream"),
    }
    assert_eq!(YieldError::<u8, &str>::from_residual(Some("e")).branch().err(), Some(Some("e")));
    assert_eq!(YieldError::<u8, &str>::from_residual(None).branch().err(), Some(None));
}

#[test]
fn select_yields_the_union_of_its_streams() {
    let sources: Vec<Result<Vec<u32>, &str>> = vec![Ok(vec![1, 2, 3]), Err("e"), Ok(vec![]), Ok(vec![4, 5])];
    let mut m: TryFlatMapSelect<Vec<u32>> = TryFlatMapSelect::new();
    let mut yielded: Vec<Result<u32, &str>> = Vec::new();
    let mut source = sources.into_iter();
    while !m.exhausted() {
        if !m.source_finished() {
            if let Some(e) = m.source_polled(source.next()) {
                yielded.push(Err(e));
            }
        }
        let mut i = 0;
        while i < m.len() {
            let s = m.stream_mut(i);
            let polled = if s.is_empty() { Some(None) } else { Some(Some(s.remove(0))) };
            match m.stream_polled(i, polled) {
                ScanStep::Yield(x) => {
                    yielded.push(Ok(x));
                    i += 1;
                }
                ScanStep::Continue(next) => i = next,
            }
        }
    }
    yielded.sort();
    assert_eq!(yielded, vec![Ok(1), Ok(2), Ok(3), Ok(4), Ok(5), Err("e")]);
}
