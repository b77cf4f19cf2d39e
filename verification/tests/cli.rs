//! The generator's command line.

use crdtsync_core::cli::{knows_lang, plan, Plan, PlanError};

fn args(words: &[&str]) -> Vec<String> {
    words.iter().map(|w| w.to_string()).collect()
}

#[test]
fn a_command_line_says_what_to_generate() {
    let generate = |input: &str, lang: &str, output: Option<&str>| {
        Ok(Plan::Generate {
            input: input.to_string(),
            lang: lang.to_string(),
            output: output.map(|o| o.to_string()),
        })
    };
    assert_eq!(plan(&args(&["s.json"])), generate("s.json", "python", None));
    assert_eq!(
        plan(&args(&["--lang", "go", "s.json", "-o", "out"])),
        generate("s.json", "go", Some("out"))
    );
    assert_eq!(plan(&args(&["s.json", "--help", "more"])), Ok(Plan::Help));
    assert_eq!(plan(&args(&[])), Err(PlanError::NoInput));
    assert_eq!(plan(&args(&["--lang"])), Err(PlanError::LangWithoutValue));
    assert_eq!(plan(&args(&["a", "--out"])), Err(PlanError::OutputWithoutValue));
    assert_eq!(plan(&args(&["a", "b"])), Err(PlanError::Unexpected("b".to_string())));
    assert!(knows_lang("py") && knows_lang("python") && !knows_lang("go"));
}
