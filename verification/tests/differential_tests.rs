use md_filer::note::{
    extract_title_from_content, is_note_file, split_frontmatter, stem_of, Note,
};
use md_filer::text::{
    chars_of, contains_chars, find_from, insert_sorted, is_space_char, join_path, same_text,
    text_before,
};
use std::path::Path;

/// A small deterministic source of test texts over a chosen alphabet.
struct Texts {
    state: u64,
    alphabet: Vec<char>,
}

impl Texts {
    fn new(alphabet: &str) -> Texts {
        Texts { state: 0x2545_F491_4F6C_DD1D, alphabet: alphabet.chars().collect() }
    }

    fn next(&mut self) -> u64 {
        self.state ^= self.state << 13;
        self.state ^= self.state >> 7;
        self.state ^= self.state << 17;
        self.state
    }

    fn text(&mut self, max_len: u64) -> String {
        let len = self.next() % (max_len + 1);
        let mut out = String::new();
        for _ in 0..len {
            let i = (self.next() % self.alphabet.len() as u64) as usize;
            out.push(self.alphabet[i]);
        }
        out
    }
}

#[test]
fn white_space_is_what_std_calls_white_space() {
    for code in 0..=0x10FFFFu32 {
        if let Some(c) = char::from_u32(code) {
            assert_eq!(is_space_char(c), c.is_whitespace(), "U+{:04X}", code);
        }
    }
}

#[test]
fn splitting_agrees_with_a_walk_over_the_lines() {
    let mut texts = Texts::new("-\n-a: \n-");
    for _ in 0..40000 {
        let mut s = texts.text(14);
        if texts.next() % 2 == 0 {
            s = format!("---\n{}", s);
        }
        let mut expected = None;
        if s.starts_with("---\n") {
            let mut header = String::new();
            let mut rest = &s[4..];
            while !rest.is_empty() {
                if rest.starts_with("---\n") {
                    expected = Some((header.clone(), rest[4..].to_string()));
                    break;
                }
                let end = rest.find('\n').map(|i| i + 1).unwrap_or(rest.len());
                header.push_str(&rest[..end]);
                rest = &rest[end..];
            }
        }
        assert_eq!(split_frontmatter(&s), expected, "{:?}", s);
        assert_eq!(Note::has_frontmatter(&s), s.starts_with("---\n"), "{:?}", s);
    }
}

#[test]
fn heading_titles_agree_with_std_lines_and_trim() {
    let mut texts = Texts::new("# \n#a \r\n\t#\u{3000}é ");
    for _ in 0..40000 {
        let s = texts.text(16);
        let mut expected = None;
        for line in s.lines() {
            if line.starts_with("# ") {
                expected = Some(line.trim_start_matches("# ").trim().to_string());
                break;
            }
        }
        assert_eq!(extract_title_from_content(&s), expected, "{:?}", s);
    }
}

#[test]
fn stems_agree_with_std_strip_suffix() {
    let mut texts = Texts::new(".mdx.md");
    for _ in 0..20000 {
        let s = texts.text(12);
        assert_eq!(stem_of(&s), s.strip_suffix(".md").unwrap_or(&s), "{:?}", s);
        let expected = Path::new(&s).extension().and_then(|e| e.to_str()) == Some("md");
        assert_eq!(is_note_file(&s), expected, "{:?}", s);
    }
}

#[test]
fn joined_paths_agree_with_std_join() {
    let mut texts = Texts::new("/ab/.é");
    for _ in 0..20000 {
        let dir = texts.text(8);
        let name = texts.text(8);
        let expected = Path::new(&dir).join(&name).to_string_lossy().to_string();
        assert_eq!(join_path(&dir, &name), expected, "{:?} {:?}", dir, name);
    }
}

#[test]
fn string_order_agrees_with_std_order() {
    let mut texts = Texts::new("ab@Z\u{e9}\u{3000}\u{1F600}~");
    let mut sorted: Vec<String> = Vec::new();
    let mut all: Vec<String> = Vec::new();
    for _ in 0..20000 {
        let a = texts.text(5);
        let b = texts.text(5);
        assert_eq!(text_before(&chars_of(&a), &chars_of(&b)), a < b, "{:?} {:?}", a, b);
        assert_eq!(same_text(&a, &b), a == b, "{:?} {:?}", a, b);
        if all.len() < 300 {
            insert_sorted(&mut sorted, &a);
            all.push(a);
        }
    }
    all.sort();
    all.dedup();
    assert_eq!(sorted, all);
}

#[test]
fn searching_agrees_with_std_find() {
    let mut texts = Texts::new("abé");
    for _ in 0..20000 {
        let hay = texts.text(10);
        let pat = texts.text(3);
        let h = chars_of(&hay);
        let p = chars_of(&pat);
        assert_eq!(contains_chars(&h, &p), hay.contains(&pat), "{:?} {:?}", hay, pat);
        let expected = hay.find(&pat).map(|at| hay[..at].chars().count());
        assert_eq!(find_from(&h, &p, 0), expected, "{:?} {:?}", hay, pat);
        assert_eq!(h.iter().collect::<String>(), hay);
    }
}
