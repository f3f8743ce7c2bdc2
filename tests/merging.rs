use binmerge::merge::{MergeAction, MergeError, MergePhase, Merger, CHUNK_SIZE};

/// Runs a merge against sources held in memory; `None` stands for a missing
/// source. Returns the outcome and what the target holds.
fn run(
    target: Option<Vec<u8>>,
    sources: &[(&str, Option<Vec<u8>>)],
    chunk: usize,
) -> (Result<(), MergeError>, Option<Vec<u8>>) {
    let names: Vec<String> = sources.iter().map(|(n, _)| n.to_string()).collect();
    let mut m = Merger::new(names);
    let mut out = target.clone();
    let mut current: Option<(Vec<u8>, usize)> = None;
    let mut action = m.target_checked(target.is_some());
    loop {
        action = match action {
            MergeAction::CreateTarget => {
                out = Some(Vec::new());
                m.target_created(true)
            }
            MergeAction::OpenSource { path } => {
                let data = sources.iter().find(|(n, _)| *n == path).and_then(|(_, d)| d.clone());
                let found = data.is_some();
                current = data.map(|d| (d, 0));
                m.source_opened(found)
            }
            MergeAction::ReadChunk => {
                let (data, pos) = current.as_mut().unwrap();
                let end = (*pos + chunk.min(CHUNK_SIZE)).min(data.len());
                let bytes = data[*pos..end].to_vec();
                *pos = end;
                m.chunk_read(bytes)
            }
            MergeAction::WriteChunk { bytes } => {
                out.as_mut().unwrap().extend_from_slice(&bytes);
                m.chunk_written(true)
            }
            MergeAction::Finish { result } => return (result, out),
        };
    }
}

#[test]
fn merges_two_sources_in_order() {
    let a: Vec<u8> = (0..10).collect();
    let b: Vec<u8> = (100..107).collect();
    let (result, out) = run(None, &[("a", Some(a.clone())), ("b", Some(b.clone()))], 3);
    assert_eq!(result, Ok(()));
    let out = out.unwrap();
    assert_eq!(out.len(), a.len() + b.len());
    assert_eq!(&out[..a.len()], &a[..]);
    assert_eq!(&out[a.len()..], &b[..]);
}

#[test]
fn merges_empty_sources() {
    let (result, out) = run(None, &[("a", Some(vec![])), ("b", Some(vec![9]))], 4);
    assert_eq!(result, Ok(()));
    assert_eq!(out, Some(vec![9]));
}

#[test]
fn merge_of_nothing_makes_empty_target() {
    let (result, out) = run(None, &[], 4);
    assert_eq!(result, Ok(()));
    assert_eq!(out, Some(vec![]));
}

#[test]
fn existing_target_is_refused_and_kept() {
    let (result, out) = run(Some(vec![7, 7, 7]), &[("a", Some(vec![1, 2]))], 4);
    assert_eq!(result, Err(MergeError::TargetAlreadyExists));
    assert_eq!(out, Some(vec![7, 7, 7]));
}

#[test]
fn missing_source_stops_and_keeps_earlier_bytes() {
    let (result, out) = run(None, &[("a", Some(vec![1, 2, 3])), ("b", None), ("c", Some(vec![4]))], 2);
    assert_eq!(result, Err(MergeError::SourceNotFound { path: "b".to_string() }));
    assert_eq!(out, Some(vec![1, 2, 3]));
}

#[test]
fn failed_create_is_an_io_failure() {
    let mut m = Merger::new(vec!["a".to_string()]);
    assert_eq!(m.target_checked(false), MergeAction::CreateTarget);
    assert_eq!(
        m.target_created(false),
        MergeAction::Finish { result: Err(MergeError::IoFailure) }
    );
    assert_eq!(m.phase(), MergePhase::Failed);
}

#[test]
fn failed_read_is_an_io_failure() {
    let mut m = Merger::new(vec!["a".to_string()]);
    m.target_checked(false);
    assert_eq!(m.target_created(true), MergeAction::OpenSource { path: "a".to_string() });
    assert_eq!(m.source_opened(true), MergeAction::ReadChunk);
    assert_eq!(m.read_failed(), MergeAction::Finish { result: Err(MergeError::IoFailure) });
}

#[test]
fn failed_write_is_an_io_failure() {
    let mut m = Merger::new(vec!["a".to_string()]);
    m.target_checked(false);
    m.target_created(true);
    m.source_opened(true);
    assert_eq!(m.chunk_read(vec![1, 2]), MergeAction::WriteChunk { bytes: vec![1, 2] });
    assert_eq!(m.phase(), MergePhase::Writing);
    assert_eq!(
        m.chunk_written(false),
        MergeAction::Finish { result: Err(MergeError::IoFailure) }
    );
}

#[test]
fn chunk_size_is_one_mebibyte() {
    assert_eq!(CHUNK_SIZE, 1024 * 1024);
}
