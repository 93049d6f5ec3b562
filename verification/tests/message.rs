use autocommit::message::{
    instruction, placeholder, split_chunks, Progress, Synthesizer, CHUNK_SIZE, MAX_CHUNKS,
};

fn is_plain_timestamp(text: &str) -> bool {
    let c: Vec<char> = text.chars().collect();
    let shape = "dddd-dd-dd dd:dd:dd";
    c.len() == shape.len()
        && shape.chars().zip(c.iter()).all(|(s, x)| if s == 'd' { x.is_ascii_digit() } else { s == *x })
}

fn ask(s: &Synthesizer) -> String {
    match s.progress() {
        Progress::Ask(request) => request,
        Progress::Done(message) => panic!("done with {:?}", message),
    }
}

fn done(s: &Synthesizer) -> String {
    match s.progress() {
        Progress::Done(message) => message,
        Progress::Ask(request) => panic!("asks {:?}", request),
    }
}

#[test]
fn the_sizes_are_as_documented() {
    assert_eq!(CHUNK_SIZE, 5000);
    assert_eq!(MAX_CHUNKS, 6);
}

#[test]
fn the_instruction_ends_before_the_diff() {
    assert!(instruction().starts_with("You are CommitBot, an assistant tasked with writing helpful commit messages"));
    assert!(instruction().ends_with("Try to fit your response in one line.\n      \n\n"));
    assert_eq!(placeholder(), "Could not generate commit message");
}

#[test]
fn split_chunks_of_a_short_diff_is_the_diff() {
    assert_eq!(split_chunks("abc"), vec!["abc".to_string()]);
    assert_eq!(split_chunks(""), Vec::<String>::new());
}

#[test]
fn split_chunks_cuts_every_five_thousand_characters() {
    let diff = format!("{}{}{}", "a".repeat(5000), "b".repeat(5000), "c".repeat(17));
    assert_eq!(split_chunks(&diff), vec!["a".repeat(5000), "b".repeat(5000), "c".repeat(17)]);
    assert_eq!(split_chunks(&"x".repeat(5000)), vec!["x".repeat(5000)]);
    assert_eq!(split_chunks(&"x".repeat(5001)), vec!["x".repeat(5000), "x".to_string()]);
}

#[test]
fn split_chunks_counts_characters() {
    let diff = "é".repeat(5001);
    assert_eq!(split_chunks(&diff), vec!["é".repeat(5000), "é".to_string()]);
}

#[test]
fn split_chunks_stops_after_six() {
    let mut diff = String::new();
    for c in ['a', 'b', 'c', 'd', 'e', 'f', 'g', 'h'] {
        diff.push_str(&c.to_string().repeat(5000));
    }
    let chunks = split_chunks(&diff);
    assert_eq!(chunks.len(), 6);
    assert_eq!(chunks[5], "f".repeat(5000));
    assert!(chunks.iter().all(|c| !c.contains('g') && !c.contains('h')));
    assert_eq!(split_chunks(&"z".repeat(30000)).len(), 6);
    assert_eq!(split_chunks(&"z".repeat(30001)).len(), 6);
    assert_eq!(split_chunks(&"z".repeat(29999)).len(), 6);
    assert_eq!(split_chunks(&"z".repeat(25000)).len(), 5);
}

#[test]
fn a_seventh_chunk_never_reaches_the_message() {
    let mut diff = "a".repeat(30000);
    diff.push_str("SEVENTH");
    let mut s = Synthesizer::begin(true, &diff, "unused");
    let mut asked = 0;
    loop {
        match s.progress() {
            Progress::Ask(request) => {
                assert!(!request.contains("SEVENTH"));
                let chunk = request.strip_prefix(instruction()).unwrap().to_string();
                asked += 1;
                s = s.accept(Some(chunk));
            }
            Progress::Done(message) => {
                assert_eq!(message, "a".repeat(30000));
                break;
            }
        }
    }
    assert_eq!(asked, 6);
    assert_eq!(Synthesizer::begin(true, &diff, "x"), Synthesizer::begin(true, &"a".repeat(30000), "x"));
}

#[test]
fn the_request_is_the_instruction_and_the_chunk() {
    let s = Synthesizer::begin(true, "+fn main() {}\n", "unused");
    assert_eq!(ask(&s), format!("{}+fn main() {{}}\n", instruction()));
}

#[test]
fn the_message_is_the_summaries_in_order_with_nothing_between() {
    let diff = "x".repeat(12000);
    let s = Synthesizer::begin(true, &diff, "unused");
    assert_eq!(ask(&s), format!("{}{}", instruction(), "x".repeat(5000)));
    let s = s.accept(Some("One.".to_string()));
    let s = s.accept(Some("Two.".to_string()));
    assert_eq!(ask(&s), format!("{}{}", instruction(), "x".repeat(2000)));
    let s = s.accept(Some("Three.".to_string()));
    assert_eq!(done(&s), "One.Two.Three.");
}

#[test]
fn a_missing_or_empty_summary_is_replaced() {
    let diff = "x".repeat(10001);
    let s = Synthesizer::begin(true, &diff, "unused");
    let s = s.accept(None).accept(Some(String::new())).accept(Some("ok".to_string()));
    assert_eq!(
        done(&s),
        "Could not generate commit messageCould not generate commit messageok"
    );
}

#[test]
fn an_answer_that_nothing_asked_for_changes_nothing() {
    let s = Synthesizer::begin(true, "diff", "unused").accept(Some("Fix.".to_string()));
    assert_eq!(done(&s), "Fix.");
    let s = s.accept(Some("More.".to_string()));
    assert_eq!(done(&s), "Fix.");
}

#[test]
fn an_empty_diff_gives_the_placeholder() {
    let s = Synthesizer::begin(true, "", "unused");
    assert_eq!(done(&s), "Could not generate commit message");
}

#[test]
fn without_a_credential_the_message_is_the_given_time_and_nothing_is_asked() {
    let s = Synthesizer::begin(false, &"x".repeat(20000), "2024-02-29 23:59:59");
    assert_eq!(done(&s), "2024-02-29 23:59:59");
    let s = s.accept(Some("ignored".to_string()));
    assert_eq!(done(&s), "2024-02-29 23:59:59");
}

#[test]
fn without_a_credential_the_message_is_the_local_time() {
    let s = Synthesizer::start(false, "diff");
    let message = done(&s);
    assert!(is_plain_timestamp(&message), "{:?}", message);
    assert!(message.as_str() >= "2024-01-01 00:00:00");
}

#[test]
fn with_a_credential_start_asks_for_the_first_chunk() {
    let s = Synthesizer::start(true, "diff");
    assert_eq!(ask(&s), format!("{}diff", instruction()));
}
