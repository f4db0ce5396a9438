use book_parser::translate::{
	chunk_plaintext, expansion_exceeded, translate_prompt, ChunkReply, SectionTranslation, TranslateFailure, CHUNK_LIMIT,
	MAX_EXPANSION,
};

#[test]
fn chunk_plaintext_small_input_single_chunk() {
	let text = "Hello world\nThis is a test\n";
	let chunks = chunk_plaintext(text);
	assert_eq!(chunks.len(), 1);
	assert_eq!(chunks[0], text);
}

#[test]
fn chunk_plaintext_splits_at_paragraph_boundaries() {
	// Create text that exceeds CHUNK_LIMIT
	let paragraph = "A".repeat(200) + "\n";
	let text = paragraph.repeat(40); // 40 * 201 = 8040 chars, > 5000
	let chunks = chunk_plaintext(&text);
	assert!(chunks.len() > 1, "expected multiple chunks, got {}", chunks.len());
	// Every chunk except the last should end with newline (paragraph boundary)
	for (i, chunk) in chunks.iter().enumerate() {
		if i < chunks.len() - 1 {
			assert!(chunk.ends_with('\n'), "chunk {i} doesn't end with newline");
			assert!(chunk.len() <= CHUNK_LIMIT + 200, "chunk {i} too large: {}", chunk.len());
		}
	}
	// Concatenated chunks equal the input
	let reassembled: String = chunks.concat();
	assert_eq!(reassembled, text);
}

#[test]
fn chunk_plaintext_no_newlines_cuts_at_limit() {
	let text = "A".repeat(CHUNK_LIMIT * 2);
	let chunks = chunk_plaintext(&text);
	assert_eq!(chunks.len(), 2);
	assert_eq!(chunks[0].len(), CHUNK_LIMIT);
	assert_eq!(chunks[1].len(), CHUNK_LIMIT);
}

#[test]
fn max_expansion_rejects_degenerate_output() {
	// Simulates the guard: 9× expansion (real case from translategemma:4b) must fail
	let input_len = 5000;
	let output_len = 45000; // 9×
	let ratio = output_len as f32 / input_len as f32;
	assert!(ratio > MAX_EXPANSION as f32, "9× expansion should exceed MAX_EXPANSION ({MAX_EXPANSION})");
	assert!(expansion_exceeded(output_len, input_len));
}

#[test]
fn max_expansion_allows_normal_translation() {
	// German is ~1.2× English; 2× is generous but valid
	let input_len = 5000;
	let output_len = 10000; // 2×
	let ratio = output_len as f32 / input_len as f32;
	assert!(ratio < MAX_EXPANSION as f32, "2× expansion should be within MAX_EXPANSION ({MAX_EXPANSION})");
	assert!(!expansion_exceeded(output_len, input_len));
}

#[test]
fn chunks_are_cut_at_the_last_newline_within_the_limit() {
	let mut text = String::new();
	for i in 0..3000 {
		text.push_str(&format!("line {i} ünïcode\n"));
	}
	let chunks = chunk_plaintext(&text);
	assert!(chunks.len() > 2);
	for chunk in &chunks[..chunks.len() - 1] {
		assert!(chunk.len() <= CHUNK_LIMIT);
		assert!(chunk.ends_with('\n'));
	}
	assert_eq!(chunks.concat(), text);
	let wide = "é".repeat(CHUNK_LIMIT);
	let chunks = chunk_plaintext(&wide);
	assert_eq!(chunks.len(), 2);
	assert_eq!(chunks[0].len(), CHUNK_LIMIT);
	assert_eq!(chunks.concat(), wide);
}

#[test]
fn chunks_are_counted_nonempty_and_whole_characters() {
	let text = "€".repeat(1700);
	let chunks = chunk_plaintext(&text);
	let lens: Vec<usize> = chunks.iter().map(|c| c.len()).collect();
	assert_eq!(lens, vec![4998, 102]);
	assert_eq!(chunks.len(), (text.len() + CHUNK_LIMIT - 1) / CHUNK_LIMIT);
	assert!(chunks.iter().all(|c| !c.is_empty() && c.chars().all(|ch| ch == '€')));
	// Short cuts at newlines still give ceil(len / limit) chunks, none empty.
	let text = format!("{}\n{}", "a".repeat(10), "b".repeat(9000));
	let chunks = chunk_plaintext(&text);
	assert_eq!(chunks.len(), 2);
	assert_eq!(chunks[0], format!("{}\n", "a".repeat(10)));
	assert_eq!(chunks[1].len(), 9000);
}

#[test]
fn section_translation_asks_chunk_by_chunk() {
	let text = format!("{}\n{}\n", "a".repeat(4000), "b".repeat(4000));
	let mut job = SectionTranslation::new(&text);
	assert_eq!(job.chunk_total(), 2);
	assert!(!job.is_done());
	let first = format!("{}\n", "a".repeat(4000));
	assert_eq!(job.next_prompt("German"), Some(translate_prompt("German", &first)));
	assert_eq!(job.on_reply(ChunkReply::CodeBlock("A".to_string())), Ok(()));
	let second = format!("{}\n", "b".repeat(4000));
	assert_eq!(job.next_prompt("German"), Some(translate_prompt("German", &second)));
	assert_eq!(job.on_reply(ChunkReply::CodeBlock("B".to_string())), Ok(()));
	assert!(job.is_done());
	assert_eq!(job.failure_of(), None);
	assert_eq!(job.next_prompt("German"), None);
	assert_eq!(job.section_md("# Titel\n\nx\n"), "# Titel\n\nA\n\nB\n");
}

#[test]
fn section_translation_stops_at_the_first_failure() {
	let text = format!("{}\n{}\n", "a".repeat(4000), "b".repeat(4000));
	let mut job = SectionTranslation::new(&text);
	assert_eq!(job.on_reply(ChunkReply::CodeBlock("A".to_string())), Ok(()));
	let failure = TranslateFailure::Expanded { chunk: 1, output: 12004, input: 4001 };
	assert_eq!(job.on_reply(ChunkReply::CodeBlock("B".repeat(12004))), Err(failure));
	assert_eq!(job.failure_of(), Some(failure));
	assert_eq!(job.next_prompt("German"), None);
	assert!(!job.is_done());

	let mut job = SectionTranslation::new(&text);
	assert_eq!(job.on_reply(ChunkReply::NoCodeBlock), Err(TranslateFailure::NoCodeBlock { chunk: 0 }));
	assert_eq!(job.next_prompt("German"), None);

	let mut job = SectionTranslation::new(&text);
	assert_eq!(job.on_reply(ChunkReply::AskFailed), Err(TranslateFailure::AskFailed { chunk: 0 }));
	assert_eq!(job.next_prompt("German"), None);
}
