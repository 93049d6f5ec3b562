use autocommit::changes::DiffStats;
use autocommit::error::Error;
use autocommit::message::instruction;
use autocommit::pipeline::{Action, Outcome, Pipeline, Reply};

fn s(x: &str) -> String {
    x.to_string()
}

fn is_plain_timestamp(text: &str) -> bool {
    let c: Vec<char> = text.chars().collect();
    let shape = "dddd-dd-dd dd:dd:dd";
    c.len() == shape.len()
        && shape.chars().zip(c.iter()).all(|(s, x)| if s == 'd' { x.is_ascii_digit() } else { s == *x })
}

fn untracked_file() -> Reply {
    Reply::Diff {
        stats: DiffStats { files_changed: 1, insertions: 1, deletions: 0 },
        lines: vec![b"diff --git a/new.txt b/new.txt\n".to_vec(), b"+hello\n".to_vec()],
    }
}

fn to_diff(credential: Option<&str>) -> Pipeline {
    let (p, a) = Pipeline::begin(credential.map(s));
    assert_eq!(a, Action::OpenRepository);
    let (p, a) = p.step(Reply::Completed);
    assert_eq!(a, Action::ReadStatus);
    let (p, a) = p.step(Reply::Status(vec![128]));
    assert_eq!(a, Action::ReadDiff);
    p
}

#[test]
fn one_untracked_file_without_credential_is_committed_with_the_time_and_pushed() {
    let p = to_diff(None);
    let (p, a) = p.step(untracked_file());
    assert_eq!(a, Action::StageAll);
    let (p, a) = p.step(Reply::Completed);
    let message = match a {
        Action::Commit { message } => message,
        other => panic!("{:?}", other),
    };
    assert!(is_plain_timestamp(&message), "{:?}", message);
    let (p, a) = p.step(Reply::Completed);
    assert_eq!(a, Action::Push);
    let (p, a) = p.step(Reply::Completed);
    assert_eq!(a, Action::Finish(Ok(Outcome::Pushed)));
    assert!(p.is_done());
}

#[test]
fn no_differences_end_the_run_without_staging_commit_or_push() {
    let (p, _) = Pipeline::begin(Some(s("key")));
    let (p, _) = p.step(Reply::Completed);
    let (p, a) = p.step(Reply::Status(vec![]));
    assert_eq!(a, Action::Finish(Ok(Outcome::NoChanges)));
    assert!(p.is_done());
    let (p, a) = p.step(Reply::Completed);
    assert_eq!(a, Action::Finish(Ok(Outcome::NoChanges)));
    let (p, a) = p.step(untracked_file());
    assert_eq!(a, Action::Finish(Ok(Outcome::NoChanges)));
    assert_eq!(p, Pipeline::Done { result: Ok(Outcome::NoChanges) });
}

#[test]
fn paths_with_unset_flags_are_no_differences() {
    let (p, _) = Pipeline::begin(None);
    let (p, _) = p.step(Reply::Completed);
    let (_, a) = p.step(Reply::Status(vec![0, 0]));
    assert_eq!(a, Action::Finish(Ok(Outcome::NoChanges)));
}

#[test]
fn a_path_that_is_no_repository_ends_the_run() {
    let (p, _) = Pipeline::begin(None);
    let (p, a) = p.step(Reply::Failed(s("could not find repository")));
    assert_eq!(a, Action::Finish(Err(Error::NotAWorkingTree)));
    assert_eq!(p, Pipeline::Done { result: Err(Error::NotAWorkingTree) });
}

#[test]
fn a_diff_without_text_ends_the_run_with_nothing_to_commit() {
    let p = to_diff(None);
    let (_, a) = p.step(Reply::Diff {
        stats: DiffStats { files_changed: 0, insertions: 0, deletions: 0 },
        lines: vec![b"ignored".to_vec()],
    });
    assert_eq!(a, Action::Finish(Ok(Outcome::NothingToCommit)));
    let p = to_diff(Some("key"));
    let (_, a) = p.step(Reply::Diff {
        stats: DiffStats { files_changed: 1, insertions: 0, deletions: 0 },
        lines: vec![],
    });
    assert_eq!(a, Action::Finish(Ok(Outcome::NothingToCommit)));
}

#[test]
fn with_a_credential_the_message_is_the_summary() {
    let p = to_diff(Some("sk-1"));
    let (p, a) = p.step(untracked_file());
    assert_eq!(
        a,
        Action::Summarize {
            credential: s("sk-1"),
            prompt: format!("{}diff --git a/new.txt b/new.txt\n+hello\n", instruction()),
        }
    );
    let (p, a) = p.step(Reply::Summary(Some(s("Add new.txt"))));
    assert_eq!(a, Action::StageAll);
    let (p, a) = p.step(Reply::Completed);
    assert_eq!(a, Action::Commit { message: s("Add new.txt") });
    let (p, a) = p.step(Reply::Completed);
    assert_eq!(a, Action::Push);
    let (_, a) = p.step(Reply::Completed);
    assert_eq!(a, Action::Finish(Ok(Outcome::Pushed)));
}

#[test]
fn the_diff_is_cut_before_it_is_summarized() {
    let p = to_diff(Some("k"));
    let (_, a) = p.step(Reply::Diff {
        stats: DiffStats { files_changed: 1, insertions: 3, deletions: 0 },
        lines: vec!["a".repeat(700).into_bytes(), "b".repeat(700).into_bytes()],
    });
    assert_eq!(
        a,
        Action::Summarize {
            credential: s("k"),
            prompt: format!("{}{}{}", instruction(), "a".repeat(700), "b".repeat(300)),
        }
    );
}

#[test]
fn a_missing_summary_is_replaced() {
    let p = to_diff(Some("k"));
    let (p, _) = p.step(untracked_file());
    let (p, _) = p.step(Reply::Summary(None));
    let (_, a) = p.step(Reply::Completed);
    assert_eq!(a, Action::Commit { message: s("Could not generate commit message") });
}

#[test]
fn a_failure_of_the_service_ends_the_run() {
    let p = to_diff(Some("k"));
    let (p, _) = p.step(untracked_file());
    let (p, a) = p.step(Reply::Failed(s("429 rate limited")));
    assert_eq!(a, Action::Finish(Err(Error::SummarizationFailure(s("429 rate limited")))));
    assert!(p.is_done());
}

#[test]
fn a_failure_of_version_control_ends_the_run_at_every_stage() {
    let failure = || Reply::Failed(s("object not found"));
    let expected = || Action::Finish(Err(Error::VersionControlFailure(s("object not found"))));

    let (p, _) = Pipeline::begin(None);
    let (p, _) = p.step(Reply::Completed);
    assert_eq!(p.step(failure()).1, expected());

    assert_eq!(to_diff(None).step(failure()).1, expected());

    let (p, _) = to_diff(None).step(untracked_file());
    assert_eq!(p.step(failure()).1, expected());

    let (p, _) = to_diff(None).step(untracked_file());
    let (p, _) = p.step(Reply::Completed);
    assert_eq!(p.step(failure()).1, expected());

    let (p, _) = to_diff(None).step(untracked_file());
    let (p, _) = p.step(Reply::Completed);
    let (p, _) = p.step(Reply::Completed);
    let (p, a) = p.step(failure());
    assert_eq!(a, expected());
    assert_eq!(p.step(Reply::Completed).1, expected());
}

#[test]
fn a_reply_that_answers_another_request_is_a_failure() {
    let (p, _) = Pipeline::begin(None);
    let (p, _) = p.step(Reply::Completed);
    let (_, a) = p.step(Reply::Completed);
    assert_eq!(a, Action::Finish(Err(Error::VersionControlFailure(s("unexpected reply")))));

    let (p, _) = Pipeline::begin(None);
    let (_, a) = p.step(Reply::Status(vec![]));
    assert_eq!(a, Action::Finish(Err(Error::NotAWorkingTree)));

    let (p, _) = to_diff(Some("k")).step(untracked_file());
    let (_, a) = p.step(Reply::Completed);
    assert_eq!(a, Action::Finish(Err(Error::SummarizationFailure(s("unexpected reply")))));
}

#[test]
fn step_at_takes_the_time_as_given() {
    let (p, a) = to_diff(None).step_at(untracked_file(), "1999-12-31 23:59:59");
    assert_eq!(a, Action::StageAll);
    assert_eq!(p, Pipeline::StageAll { message: s("1999-12-31 23:59:59") });
    let (_, a) = p.step_at(Reply::Completed, "2000-01-01 00:00:00");
    assert_eq!(a, Action::Commit { message: s("1999-12-31 23:59:59") });
}

#[test]
fn without_a_credential_nothing_is_asked_of_the_service() {
    let replies = || {
        vec![
            Reply::Completed,
            Reply::Status(vec![1]),
            untracked_file(),
            Reply::Summary(Some(s("x"))),
            Reply::Completed,
            Reply::Completed,
            Reply::Completed,
        ]
    };
    for skip in 0..7 {
        let (mut p, _) = Pipeline::begin(None);
        for (i, reply) in replies().into_iter().enumerate() {
            if i == skip {
                continue;
            }
            let (next, a) = p.step(reply);
            assert!(!matches!(a, Action::Summarize { .. }));
            p = next;
        }
    }
}

#[test]
fn every_run_ends_within_twelve_steps() {
    let (mut p, _) = Pipeline::begin(Some(s("k")));
    let replies = vec![
        Reply::Completed,
        Reply::Status(vec![2]),
        untracked_file(),
        Reply::Summary(Some(s("x"))),
        Reply::Completed,
        Reply::Completed,
        Reply::Completed,
    ];
    let mut steps = 0;
    for reply in replies {
        assert!(!p.is_done());
        p = p.step(reply).0;
        steps += 1;
    }
    assert!(p.is_done());
    assert!(steps <= 12);
}
