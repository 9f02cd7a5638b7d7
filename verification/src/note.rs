//! Notes kept per file: where they live, what a new note starts with, and
//! how the editor command is read.

use vstd::prelude::*;
use crate::paths::{join_path, join_text};
use crate::text::{chars_of, string_from_chars};

verus! {

/// The note file of the file with key `file_hash`:
/// `<root>/.codewatch/notes/<file_hash>.md`.
pub fn get_note_path(project_root: &str, file_hash: &str) -> (r: String)
    ensures
        r@ == join_text(join_text(join_text(project_root@, ".codewatch"@), "notes"@), file_hash@ + ".md"@),
{
    let dir = join_path(project_root, ".codewatch");
    let notes = join_path(dir.as_str(), "notes");
    let mut name = file_hash.to_owned();
    name.append(".md");
    join_path(notes.as_str(), name.as_str())
}

/// The text of a new note for `relative_path`, dated `today`.
pub open spec fn note_template_text(relative_path: Seq<char>, today: Seq<char>) -> Seq<char> {
    "# "@ + relative_path + "\n\n理解度: 0/5\n最終確認: "@ + today + "\n\n<!-- ここにメモを書く -->\n"@
}

/// The headings that the `note` command adds to a new note.
pub open spec fn note_sections_text() -> Seq<char> {
    "# 役割\n# 構造\n# 疑問・気になった点\n"@
}

/// The text of a new note: a heading with the path, an understanding level of
/// 0/5, the date it was last checked, and a placeholder comment.
pub fn note_template(relative_path: &str, today: &str) -> (r: String)
    ensures
        r@ == note_template_text(relative_path@, today@),
{
    let mut r = "# ".to_owned();
    r.append(relative_path);
    r.append("\n\n理解度: 0/5\n最終確認: ");
    r.append(today);
    r.append("\n\n<!-- ここにメモを書く -->\n");
    r
}

/// The text of a note created by the `note` command: the new-note text
/// followed by headings for the role, the structure and open questions.
pub fn note_command_template(relative_path: &str, today: &str) -> (r: String)
    ensures
        r@ == note_template_text(relative_path@, today@) + note_sections_text(),
{
    let mut r = note_template(relative_path, today);
    r.append("# 役割\n# 構造\n# 疑問・気になった点\n");
    r
}

/// Whether a character has the Unicode `White_Space` property
/// (`char::is_whitespace`).
pub open spec fn is_white_space(c: char) -> bool {
    let u = c as u32;
    (9 <= u <= 13) || u == 32 || u == 0x85 || u == 0xA0 || u == 0x1680 || (0x2000 <= u <= 0x200A)
        || u == 0x2028 || u == 0x2029 || u == 0x202F || u == 0x205F || u == 0x3000
}

fn white_space(c: char) -> (b: bool)
    ensures
        b == is_white_space(c),
{
    let u = c as u32;
    (9 <= u && u <= 13) || u == 32 || u == 0x85 || u == 0xA0 || u == 0x1680 || (0x2000 <= u && u <= 0x200A)
        || u == 0x2028 || u == 0x2029 || u == 0x202F || u == 0x205F || u == 0x3000
}

/// The words of `s` (`str::split_whitespace`): the maximal runs of
/// non-white-space characters, in order, scanning from the start with
/// `current` the run being read.
pub open spec fn words_from(s: Seq<char>) -> (Seq<Seq<char>>, Seq<char>)
    decreases s.len(),
{
    if s.len() == 0 {
        (Seq::<Seq<char>>::empty(), Seq::<char>::empty())
    } else {
        let (done, cur) = words_from(s.drop_last());
        if is_white_space(s.last()) {
            if cur.len() > 0 { (done.push(cur), Seq::<char>::empty()) } else { (done, cur) }
        } else {
            (done, cur.push(s.last()))
        }
    }
}

pub open spec fn words(s: Seq<char>) -> Seq<Seq<char>> {
    let (done, cur) = words_from(s);
    if cur.len() > 0 { done.push(cur) } else { done }
}

/// The words of a string.
pub fn split_words(s: &str) -> (r: Vec<String>)
    ensures
        crate::text::strings_view(r@) == words(s@),
{
    let cs = chars_of(s);
    let mut done: Vec<String> = Vec::new();
    let mut cur: Vec<char> = Vec::new();
    let mut i: usize = 0;
    assert(cs@.take(0) =~= Seq::<char>::empty());
    while i < cs.len()
        invariant
            cs@ == s@,
            i <= cs@.len(),
            crate::text::strings_view(done@) == words_from(cs@.take(i as int)).0,
            cur@ == words_from(cs@.take(i as int)).1,
        decreases cs@.len() - i,
    {
        assert(cs@.take(i + 1).drop_last() =~= cs@.take(i as int));
        let c = cs[i];
        if white_space(c) {
            if cur.len() > 0 {
                let w = string_from_chars(cur.as_slice());
                let ghost before = crate::text::strings_view(done@);
                done.push(w);
                assert(crate::text::strings_view(done@) =~= before.push(cur@));
                cur = Vec::new();
            }
        } else {
            cur.push(c);
        }
        i = i + 1;
    }
    assert(cs@.take(cs@.len() as int) =~= s@);
    if cur.len() > 0 {
        let w = string_from_chars(cur.as_slice());
        let ghost before = crate::text::strings_view(done@);
        done.push(w);
        assert(crate::text::strings_view(done@) =~= before.push(cur@));
    }
    done
}

/// The program and arguments of an editor command line: its first word and
/// the words after it; `None` when it has no words.
pub fn editor_command(editor: &str) -> (r: Option<(String, Vec<String>)>)
    ensures
        match r {
            Some((prog, args)) => words(editor@).len() > 0 && prog@ == words(editor@)[0]
                && crate::text::strings_view(args@) == words(editor@).drop_first(),
            None => words(editor@).len() == 0,
        },
{
    let mut ws = split_words(editor);
    if ws.len() == 0 {
        return None;
    }
    let ghost all = crate::text::strings_view(ws@);
    let prog = ws.remove(0);
    assert(crate::text::strings_view(ws@) =~= all.drop_first());
    Some((prog, ws))
}

} // verus!
