use book_parser::annotate::annotate_command;
use book_parser::translate::{model_listed, translate_prompt, translated_section_md, OLLAMA_MODEL};
use book_parser::tts::{check_output_ext, eq_ignore_ascii_case_exec, parse_progress, tts_input_ok, wav_file_name, Model, OutputPathError};

#[test]
fn models() {
    assert_eq!(Model::Fast.label(), "kokoro");
    assert_eq!(Model::Best.label(), "chatterbox");
    assert_eq!(Model::from_choice(true), Model::Best);
    assert_eq!(Model::from_choice(false), Model::Fast);
}

#[test]
fn progress_lines() {
    assert_eq!(parse_progress("PROGRESS 3/10"), Some((3, 10)));
    assert_eq!(parse_progress("PROGRESS 0/0"), Some((0, 0)));
    assert_eq!(parse_progress("PROGRESS 3/x"), None);
    assert_eq!(parse_progress("PROGRESS 3 10"), None);
    assert_eq!(parse_progress("progress 3/10"), None);
    assert_eq!(parse_progress("PROGRESS  3/10"), None);
    assert_eq!(parse_progress("loading model..."), None);
}

#[test]
fn speech_paths() {
    assert!(tts_input_ok("txt"));
    assert!(tts_input_ok("md"));
    assert!(!tts_input_ok("TXT"));
    assert!(!tts_input_ok("epub"));
    assert!(check_output_ext(Some("wav")).is_ok());
    assert!(check_output_ext(Some("WaV")).is_ok());
    assert!(matches!(check_output_ext(Some("mp3")), Err(OutputPathError::WrongExtension)));
    assert!(matches!(check_output_ext(None), Err(OutputPathError::NoExtension)));
    assert!(eq_ignore_ascii_case_exec("Cloudflare", "cLOUDFLARE"));
    assert!(!eq_ignore_ascii_case_exec("ä", "Ä"));
}

#[test]
fn annotate_commands() {
    assert_eq!(
        annotate_command("de", "3000", "/t/section_1.tmp.txt", "/t/section_1.txt"),
        "translate_infrequent -l de -w 3000 < '/t/section_1.tmp.txt' > '/t/section_1.txt'"
    );
    assert_eq!(
        annotate_command("pt BR", "it's", "a", "b"),
        "translate_infrequent -l 'pt BR' -w 'it'\\''s' < 'a' > 'b'"
    );
}

#[test]
fn translation_prompts_and_results() {
    assert_eq!(translate_prompt("German", "Hello"), "Translate provided text to German: ```Hello```. Output as a codeblock.");
    let md = translated_section_md("# Chapter\n\nHello\n", &vec!["Hallo\nWelt".to_string(), "Ende".to_string()]);
    assert_eq!(md, "# Chapter\n\nHallo\n\nWelt\n\nEnde\n");
    assert_eq!(translated_section_md("untitled\n", &vec![]), "");
}

#[test]
fn translation_model_is_found() {
    assert_eq!(OLLAMA_MODEL, "translategemma:4b");
    assert!(model_listed(&vec!["llama3:8b".to_string(), "translategemma:4b".to_string()]));
    assert!(model_listed(&vec!["translategemma:12b".to_string()]));
    assert!(!model_listed(&vec!["translategemma".to_string(), "gemma:4b".to_string()]));
    assert!(!model_listed(&vec![]));
}

#[test]
fn progress_lines_read_back() {
    for (a, b) in [(0u64, 0u64), (7, 12), (u64::MAX, 1)] {
        assert_eq!(parse_progress(&format!("PROGRESS {a}/{b}")), Some((a, b)));
    }
    assert_eq!(parse_progress("PROGRESS 3 / 10"), None);
    assert_eq!(parse_progress("progress 3/10"), None);
    assert_eq!(parse_progress("PROGRESS 3"), None);
    assert_eq!(parse_progress("PROGRESS 3/x"), None);
}

#[test]
fn speech_file_named_after_the_input_stem() {
    assert_eq!(wav_file_name("notes.v2.txt"), "notes.v2.wav");
    assert_eq!(wav_file_name("book.md"), "book.wav");
    assert_eq!(wav_file_name("README"), "README.wav");
    assert_eq!(wav_file_name(".hidden"), ".hidden.wav");
    assert_eq!(wav_file_name("archive."), "archive.wav");
}
