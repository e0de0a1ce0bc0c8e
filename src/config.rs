use vstd::prelude::*;
use sha2::Digest;
use vstd::utf8::encode_utf8;
use crate::path::{EntryPath, segments_of_text, text_of_segments, strings_view};
use crate::entry::{FileEntry, list_view};
use crate::selection::{collect_list, collect_selected_paths, paths_view};

verus! {

// ---------------------------------------------------------------------------
// Fence languages

/// Fence-language tags by lowercase file extension (without the dot): the
/// first entry with a given extension counts.
pub struct LanguageMap {
    pub entries: Vec<(String, String)>,
}

impl View for LanguageMap {
    type V = Seq<(Seq<char>, Seq<char>)>;

    open spec fn view(&self) -> Seq<(Seq<char>, Seq<char>)> {
        self.entries@.map_values(|e: (String, String)| (e.0@, e.1@))
    }
}

impl LanguageMap {
    /// No extension has two entries.
    pub open spec fn wf(&self) -> bool {
        forall|i: int, j: int|
            0 <= i < self@.len() && 0 <= j < self@.len() && i != j ==> self@[i].0 != self@[j].0
    }
}

/// The tag of the first entry for `ext`, or the empty text.
pub open spec fn language_of(m: Seq<(Seq<char>, Seq<char>)>, ext: Seq<char>) -> Seq<char>
    decreases m.len(),
{
    if m.len() == 0 {
        Seq::empty()
    } else if m[0].0 == ext {
        m[0].1
    } else {
        language_of(m.drop_first(), ext)
    }
}

fn pair(k: &str, v: &str) -> (r: (String, String))
    ensures
        r.0@ == k@,
        r.1@ == v@,
{
    (k.to_owned(), v.to_owned())
}

/// The built-in language tags.
pub open spec fn builtin_languages() -> Seq<(Seq<char>, Seq<char>)> {
    seq![
        ("rs"@, "rust"@),
        ("json"@, "json"@),
        ("toml"@, "toml"@),
        ("js"@, "javascript"@),
        ("rb"@, "ruby"@),
        ("slim"@, "slim"@),
        ("vue"@, "vue"@),
        ("md"@, "markdown"@),
    ]
}

/// The built-in language tags.
pub fn get_supported_extensions() -> (r: LanguageMap)
    ensures
        r@ == builtin_languages(),
        r.wf(),
{
    let mut entries: Vec<(String, String)> = Vec::new();
    entries.push(pair("rs", "rust"));
    entries.push(pair("json", "json"));
    entries.push(pair("toml", "toml"));
    entries.push(pair("js", "javascript"));
    entries.push(pair("rb", "ruby"));
    entries.push(pair("slim", "slim"));
    entries.push(pair("vue", "vue"));
    entries.push(pair("md", "markdown"));
    let r = LanguageMap { entries };
    assert(r@ =~= builtin_languages());
    proof {
        reveal_strlit("rs");
        reveal_strlit("json");
        reveal_strlit("toml");
        reveal_strlit("js");
        reveal_strlit("rb");
        reveal_strlit("slim");
        reveal_strlit("vue");
        reveal_strlit("md");
        let keys = seq!["rs"@, "json"@, "toml"@, "js"@, "rb"@, "slim"@, "vue"@, "md"@];
        assert forall|i: int| 0 <= i < 8 implies r@[i].0 == #[trigger] keys[i] by {}
        assert forall|i: int, j: int| 0 <= i < 8 && 0 <= j < 8 && i != j implies keys[i] != keys[j] by {
            if keys[i].len() == keys[j].len() {
                assert(keys[i][0] != keys[j][0] || keys[i][1] != keys[j][1]);
            }
        }
    }
    r
}

/// The fence-language tag for a file extension; the empty text where the
/// extension has none.
pub fn get_code_block_language<'a>(supported_extensions: &'a LanguageMap, extension: &str) -> (r: &'a str)
    ensures
        r@ == language_of(supported_extensions@, extension@),
{
    let ghost m = supported_extensions@;
    let ext = extension.to_owned();
    let mut i: usize = 0;
    assert(m.skip(0) =~= m);
    while i < supported_extensions.entries.len()
        invariant
            m == supported_extensions@,
            ext@ == extension@,
            i <= m.len(),
            language_of(m, extension@) == language_of(m.skip(i as int), extension@),
        decreases m.len() - i,
    {
        assert(m.skip(i as int)[0] == m[i as int]);
        assert(m.skip(i as int).drop_first() =~= m.skip(i + 1));
        if supported_extensions.entries[i].0 == ext {
            return supported_extensions.entries[i].1.as_str();
        }
        i = i + 1;
    }
    proof {
        reveal_strlit("");
    }
    ""
}

// ---------------------------------------------------------------------------
// Where the selection is kept

/// The SHA-256 digest of `data`.
pub uninterp spec fn sha256_of(data: Seq<u8>) -> Seq<u8>;

/// Relies on `sha2::Sha256::digest`: the digest depends on the bytes alone.
#[verifier::external_body]
fn sha256_digest(data: &[u8]) -> (r: Vec<u8>)
    ensures
        r@ == sha256_of(data@),
{
    sha2::Sha256::digest(data).to_vec()
}

/// Relies on `String::push`: the character is appended.
#[verifier::external_body]
fn push_char(s: &mut String, c: char)
    ensures
        final(s)@ == old(s)@.push(c),
{
    s.push(c)
}

/// The lowercase hexadecimal digit of `d`.
pub open spec fn hex_digit(d: u8) -> char {
    if d < 10 {
        (48 + d) as char
    } else {
        (87 + d) as char
    }
}

/// Two lowercase hexadecimal digits per byte, the high one first.
pub open spec fn hex_of(b: Seq<u8>) -> Seq<char>
    decreases b.len(),
{
    if b.len() == 0 {
        Seq::empty()
    } else {
        hex_of(b.drop_last()) + seq![hex_digit(b.last() / 16), hex_digit(b.last() % 16)]
    }
}

fn digit(d: u8) -> (c: char)
    requires
        d < 16,
    ensures
        c == hex_digit(d),
{
    if d < 10 {
        (48 + d) as char
    } else {
        (87 + d) as char
    }
}

/// Two lowercase hexadecimal digits for each byte.
pub fn hex_string(bytes: &[u8]) -> (r: String)
    ensures
        r@ == hex_of(bytes@),
{
    let mut r = String::new();
    let mut i: usize = 0;
    assert(bytes@.take(0) =~= Seq::<u8>::empty());
    while i < bytes.len()
        invariant
            i <= bytes@.len(),
            r@ == hex_of(bytes@.take(i as int)),
        decreases bytes@.len() - i,
    {
        let b = bytes[i];
        push_char(&mut r, digit(b / 16));
        push_char(&mut r, digit(b % 16));
        assert(bytes@.take(i + 1).drop_last() =~= bytes@.take(i as int));
        assert(r@ =~= hex_of(bytes@.take(i + 1)));
        i = i + 1;
    }
    assert(bytes@.take(i as int) =~= bytes@);
    r
}

/// The lowercase hexadecimal SHA-256 digest of the UTF-8 bytes of
/// `current_dir`.
pub fn hash_current_dir(current_dir: &str) -> (r: String)
    ensures
        r@ == hex_of(sha256_of(encode_utf8(current_dir@))),
{
    let digest = sha256_digest(current_dir.as_bytes());
    hex_string(digest.as_slice())
}

/// Where the selection for the scan root `current_dir` is kept:
/// `/tmp/.ai_content.<digest>.json`, named by the hexadecimal SHA-256 digest
/// of the root's text.
pub fn get_config_file_path(current_dir: &str) -> (r: String)
    ensures
        r@ == "/tmp/.ai_content."@ + hex_of(sha256_of(encode_utf8(current_dir@))) + ".json"@,
{
    let hash = hash_current_dir(current_dir);
    let mut r = "/tmp/.ai_content.".to_owned();
    r.append(hash.as_str());
    r.append(".json");
    r
}

// ---------------------------------------------------------------------------
// The saved selection as JSON

#[verifier::external_type_specification]
#[verifier::external_body]
pub struct ExJsonError(serde_json::Error);

/// The JSON text of a list of strings.
pub uninterp spec fn json_of_strings(texts: Seq<Seq<char>>) -> Seq<char>;

/// The list of strings that a JSON text holds, if it holds one.
pub uninterp spec fn strings_of_json(text: Seq<char>) -> Option<Seq<Seq<char>>>;

/// Relies on `serde_json::to_string` on a list of strings: it fails only
/// where a value's serializer fails or a map has keys that are not strings,
/// neither of which a list of strings has; its text depends on the strings
/// alone.
#[verifier::external_body]
fn encode_strings(texts: &Vec<String>) -> (r: Result<String, serde_json::Error>)
    ensures
        r is Ok,
        r matches Ok(s) ==> s@ == json_of_strings(strings_view(texts@)),
{
    serde_json::to_string(texts)
}

/// Relies on `serde_json::from_str` into a list of strings: whether it
/// succeeds, and the strings it gives, depend on the text alone.
#[verifier::external_body]
fn decode_strings(text: &str) -> (r: Result<Vec<String>, serde_json::Error>)
    ensures
        match r {
            Ok(v) => strings_of_json(text@) == Some(strings_view(v@)),
            Err(_) => strings_of_json(text@) is None,
        },
{
    serde_json::from_str(text)
}

/// Why a saved selection could not be read.
#[derive(Debug, PartialEq, Eq, Structural)]
pub enum ConfigError {
    /// The text is not a JSON list of strings.
    Parse,
}

/// The texts of the paths.
pub open spec fn texts_of_paths(ps: Seq<Seq<Seq<char>>>) -> Seq<Seq<char>> {
    ps.map_values(|p: Seq<Seq<char>>| text_of_segments(p))
}

/// The paths read from their texts.
pub open spec fn paths_of_texts(ts: Seq<Seq<char>>) -> Seq<Seq<Seq<char>>> {
    ts.map_values(|t: Seq<char>| segments_of_text(t))
}

/// The text that keeps the selection: a JSON list holding the path of each
/// selected file as `/`-separated text, in depth-first order.
pub fn save_config(files: &Vec<FileEntry>) -> (r: String)
    ensures
        r@ == json_of_strings(texts_of_paths(collect_list(list_view(files@)))),
{
    let texts = selected_path_texts(files);
    match encode_strings(&texts) {
        Ok(s) => s,
        Err(_) => String::new(),
    }
}

/// The path of each selected file as `/`-separated text, in depth-first
/// order.
pub fn selected_path_texts(files: &Vec<FileEntry>) -> (r: Vec<String>)
    ensures
        strings_view(r@) == texts_of_paths(collect_list(list_view(files@))),
{
    let paths = collect_selected_paths(files);
    let ghost ps = paths_view(paths@);
    let mut texts: Vec<String> = Vec::new();
    let mut i: usize = 0;
    while i < paths.len()
        invariant
            ps == paths_view(paths@),
            i <= ps.len(),
            strings_view(texts@) == texts_of_paths(ps.take(i as int)),
        decreases ps.len() - i,
    {
        let t = paths[i].to_text();
        let ghost before = texts@;
        texts.push(t);
        assert(strings_view(texts@) =~= strings_view(before).push(text_of_segments(ps[i as int])));
        assert(texts_of_paths(ps.take(i + 1)) =~= texts_of_paths(ps.take(i as int)).push(text_of_segments(ps[i as int])));
        i = i + 1;
    }
    assert(ps.take(i as int) =~= ps);
    texts
}

/// The paths kept in a saved-selection text, each read from its
/// `/`-separated form.
pub fn load_config(text: &str) -> (r: Result<Vec<EntryPath>, ConfigError>)
    ensures
        match r {
            Ok(v) => strings_of_json(text@) matches Some(ts) && paths_view(v@) == paths_of_texts(ts),
            Err(e) => strings_of_json(text@) is None && e == ConfigError::Parse,
        },
{
    match decode_strings(text) {
        Ok(texts) => Ok(paths_from_texts(&texts)),
        Err(_) => Err(ConfigError::Parse),
    }
}

/// The path of each `/`-separated text.
pub fn paths_from_texts(texts: &Vec<String>) -> (r: Vec<EntryPath>)
    ensures
        paths_view(r@) == paths_of_texts(strings_view(texts@)),
{
    let ghost ts = strings_view(texts@);
    let mut paths: Vec<EntryPath> = Vec::new();
    let mut i: usize = 0;
    while i < texts.len()
        invariant
            ts == strings_view(texts@),
            i <= ts.len(),
            paths_view(paths@) == paths_of_texts(ts.take(i as int)),
        decreases ts.len() - i,
    {
        let p = EntryPath::parse(texts[i].as_str());
        let ghost before = paths@;
        paths.push(p);
        assert(paths_view(paths@) =~= paths_view(before).push(segments_of_text(ts[i as int])));
        assert(paths_of_texts(ts.take(i + 1)) =~= paths_of_texts(ts.take(i as int)).push(segments_of_text(ts[i as int])));
        i = i + 1;
    }
    assert(ts.take(i as int) =~= ts);
    paths
}

// ---------------------------------------------------------------------------
// Sizes

/// The sum of the known sizes; an unknown one (a file that could not be read)
/// counts for nothing.
pub open spec fn total_size(sizes: Seq<Option<u64>>) -> int
    decreases sizes.len(),
{
    if sizes.len() == 0 {
        0
    } else {
        total_size(sizes.drop_last()) + match sizes.last() {
            Some(x) => x as int,
            None => 0,
        }
    }
}

proof fn lemma_total_size_grows(sizes: Seq<Option<u64>>, k: int)
    requires
        0 <= k <= sizes.len(),
    ensures
        total_size(sizes.take(k)) <= total_size(sizes),
    decreases sizes.len(),
{
    if k < sizes.len() {
        assert(sizes.drop_last().take(k) =~= sizes.take(k));
        lemma_total_size_grows(sizes.drop_last(), k);
    } else {
        assert(sizes.take(k) =~= sizes);
    }
}

/// The total size in bytes of the selected files, from the size of each
/// (`None` for a file that could not be read); `None` where the total does
/// not fit in a `u64`.
pub fn calculate_selected_files_size(sizes: &Vec<Option<u64>>) -> (r: Option<u64>)
    ensures
        match r {
            Some(t) => t == total_size(sizes@),
            None => total_size(sizes@) > u64::MAX,
        },
{
    let mut total: u64 = 0;
    let mut i: usize = 0;
    assert(sizes@.take(0) =~= Seq::<Option<u64>>::empty());
    while i < sizes.len()
        invariant
            i <= sizes@.len(),
            total == total_size(sizes@.take(i as int)),
        decreases sizes@.len() - i,
    {
        assert(sizes@.take(i + 1).drop_last() =~= sizes@.take(i as int));
        if let Some(x) = sizes[i] {
            if x > u64::MAX - total {
                proof {
                    lemma_total_size_grows(sizes@, i + 1);
                }
                return None;
            }
            total = total + x;
        }
        i = i + 1;
    }
    assert(sizes@.take(i as int) =~= sizes@);
    Some(total)
}

} // verus!
