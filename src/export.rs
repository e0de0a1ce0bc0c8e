use vstd::prelude::*;
use crate::path::{EntryPath, text_of_segments};
use crate::config::{language_of, get_code_block_language};
use crate::app::FileTreeApp;

verus! {

/// The index of the last `.` of the name, or -1.
pub open spec fn dot_index(name: Seq<char>) -> int
    decreases name.len(),
{
    if name.len() == 0 {
        -1
    } else if name.last() == '.' {
        name.len() - 1
    } else {
        dot_index(name.drop_last())
    }
}

/// The extension of a file name: what follows its last `.`; the empty text
/// where the name has no `.` but a leading one.
pub open spec fn extension_of(name: Seq<char>) -> Seq<char> {
    let k = dot_index(name);
    if k <= 0 {
        Seq::empty()
    } else {
        name.skip(k + 1)
    }
}

/// The extension of the last segment of a path.
pub open spec fn path_extension(p: Seq<Seq<char>>) -> Seq<char> {
    if p.len() == 0 {
        Seq::empty()
    } else {
        extension_of(p.last())
    }
}

/// The block of one file in the exported text: its path, then its content
/// fenced with the language tag.
pub open spec fn block_text(path: Seq<char>, lang: Seq<char>, content: Seq<char>) -> Seq<char> {
    "===== Start: ./"@ + path + " =====\n"@ + "```"@ + lang + "\n"@ + content + "\n```\n"@ + "===== End: ./"@
        + path + " =====\n\n"@
}

/// The exported text of the files, in order, each with its content.
pub open spec fn export_text(
    files: Seq<(Seq<Seq<char>>, Seq<char>)>,
    languages: Seq<(Seq<char>, Seq<char>)>,
) -> Seq<char>
    decreases files.len(),
{
    if files.len() == 0 {
        Seq::empty()
    } else {
        let (p, content) = files.last();
        export_text(files.drop_last(), languages) + block_text(
            text_of_segments(p),
            language_of(languages, path_extension(p)),
            content,
        )
    }
}

proof fn lemma_dot_index_prefix(name: Seq<char>, i: int)
    requires
        0 <= i <= name.len(),
        forall|k: int| i <= k < name.len() ==> name[k] != '.',
    ensures
        dot_index(name) == dot_index(name.take(i)),
    decreases name.len(),
{
    if i == name.len() {
        assert(name.take(i) =~= name);
    } else {
        assert(name.drop_last().take(i) =~= name.take(i));
        lemma_dot_index_prefix(name.drop_last(), i);
    }
}

/// The extension of a file name, as `extension_of` describes.
pub fn file_extension(name: &str) -> (r: &str)
    ensures
        r@ == extension_of(name@),
{
    let n = name.unicode_len();
    let mut i: usize = n;
    while i > 0
        invariant
            n == name@.len(),
            i <= n,
            forall|k: int| i <= k < n ==> name@[k] != '.',
        decreases i,
    {
        if name.get_char(i - 1) == '.' {
            proof {
                lemma_dot_index_prefix(name@, i as int);
                assert(name@.take(i as int).last() == '.');
            }
            if i == 1 {
                proof {
                    reveal_strlit("");
                }
                return "";
            }
            return name.substring_char(i, n);
        }
        i = i - 1;
    }
    proof {
        lemma_dot_index_prefix(name@, 0);
        assert(name@.take(0).len() == 0);
        reveal_strlit("");
    }
    ""
}

/// The extension of the last segment of a path.
fn extension_of_path(p: &EntryPath) -> (r: &str)
    ensures
        r@ == path_extension(p@),
{
    let n = p.segments.len();
    if n == 0 {
        proof {
            reveal_strlit("");
        }
        return "";
    }
    file_extension(p.segments[n - 1].as_str())
}

impl FileTreeApp {
    /// The exported text of the files, given with their contents: for each,
    /// a start line with its path, its content fenced with the language tag
    /// of its extension, and an end line.
    pub fn generate_text(&self, files: &Vec<(EntryPath, String)>) -> (r: String)
        ensures
            r@ == export_text(files@.map_values(|f: (EntryPath, String)| (f.0@, f.1@)), self.supported_extensions@),
    {
        let ghost fs = files@.map_values(|f: (EntryPath, String)| (f.0@, f.1@));
        let mut content = String::new();
        let mut i: usize = 0;
        assert(fs.take(0) =~= Seq::<(Seq<Seq<char>>, Seq<char>)>::empty());
        while i < files.len()
            invariant
                fs == files@.map_values(|f: (EntryPath, String)| (f.0@, f.1@)),
                i <= fs.len(),
                content@ == export_text(fs.take(i as int), self.supported_extensions@),
            decreases fs.len() - i,
        {
            let path = files[i].0.to_text();
            let lang = get_code_block_language(&self.supported_extensions, extension_of_path(&files[i].0));
            content.append("===== Start: ./");
            content.append(path.as_str());
            content.append(" =====\n");
            content.append("```");
            content.append(lang);
            content.append("\n");
            content.append(files[i].1.as_str());
            content.append("\n```\n");
            content.append("===== End: ./");
            content.append(path.as_str());
            content.append(" =====\n\n");
            assert(fs.take(i + 1).drop_last() =~= fs.take(i as int));
            assert(fs.take(i + 1).last() == fs[i as int]);
            i = i + 1;
        }
        assert(fs.take(i as int) =~= fs);
        content
    }
}

} // verus!
