//! The content diff that `cntl diff` prints for one file.
use vstd::prelude::*;
use vstd::utf8::*;
use crate::status::{is_binary, is_binary_spec};
use crate::wire::string_from_utf8;

verus! {

/// The unified diff that `similar` produces for two texts, line by line,
/// under the given `---`/`+++` labels.
pub uninterp spec fn unified_diff_text(
    old: Seq<char>,
    new: Seq<char>,
    old_label: Seq<char>,
    new_label: Seq<char>,
) -> Seq<char>;

/// Calls `similar::TextDiff::from_lines(old, new)`, renders it with
/// `unified_diff().header(old_label, new_label)` and collects the text.
/// What is stated is only that the text is the one named by
/// `unified_diff_text` for these four arguments: the default diff
/// configuration sets no deadline, so the result depends on them alone. The
/// diff algorithm itself is not described here.
#[verifier::external_body]
fn unified_diff(old: &str, new: &str, old_label: &str, new_label: &str) -> (r: String)
    ensures
        r@ == unified_diff_text(old@, new@, old_label@, new_label@),
{
    similar::TextDiff::from_lines(old, new).unified_diff().header(old_label, new_label).to_string()
}

/// `diff --cntl a/path b/path` and a newline.
pub open spec fn diff_header(path: Seq<char>) -> Seq<char> {
    "diff --cntl a/"@ + path + " b/"@ + path + "\n"@
}

/// The text of one side of a diff: its content when that is UTF-8, else
/// nothing, as for a side that does not exist.
pub open spec fn side_text(side: Option<Seq<u8>>) -> Seq<char> {
    match side {
        Some(b) => if valid_utf8(b) {
            decode_utf8(b)
        } else {
            Seq::empty()
        },
        None => Seq::empty(),
    }
}

/// The label of one side: `a/path` (or `b/path`) when it exists, else
/// `/dev/null`.
pub open spec fn side_label(side: Option<Seq<u8>>, prefix: Seq<char>, path: Seq<char>) -> Seq<char> {
    match side {
        Some(_) => prefix + path,
        None => "/dev/null"@,
    }
}

/// Either side exists and counts as binary.
pub open spec fn any_binary(old: Option<Seq<u8>>, new: Option<Seq<u8>>) -> bool {
    (old matches Some(b) && is_binary_spec(b)) || (new matches Some(b) && is_binary_spec(b))
}

pub open spec fn opt_bytes(o: Option<&[u8]>) -> Option<Seq<u8>> {
    match o {
        Some(b) => Some(b@),
        None => None,
    }
}

/// What `cntl diff` prints for a file, given the body that follows the
/// header: the header, then the body.
pub fn diff_block(path: &str, body: &str) -> (text: String)
    ensures
        text@ == diff_header(path@) + body@,
{
    let mut t = "diff --cntl a/".to_owned();
    t.append(path);
    t.append(" b/");
    t.append(path);
    t.append("\n");
    t.append(body);
    t
}

/// The line that stands for the content of binary files.
pub fn binary_note(path: &str) -> (text: String)
    ensures
        text@ == "Binary files a/"@ + path@ + " and b/"@ + path@ + " differ\n"@,
{
    let mut t = "Binary files a/".to_owned();
    t.append(path);
    t.append(" and b/");
    t.append(path);
    t.append(" differ\n");
    t
}

fn side_to_text(side: Option<&[u8]>) -> (t: String)
    ensures
        t@ == side_text(opt_bytes(side)),
{
    match side {
        Some(b) => match string_from_utf8(vstd::slice::slice_to_vec(b)) {
            Some(s) => {
                proof {
                    encode_utf8_decode_utf8(s@);
                }
                s
            },
            None => String::new(),
        },
        None => String::new(),
    }
}

fn side_to_label(side: Option<&[u8]>, prefix: &str, path: &str) -> (t: String)
    ensures
        t@ == side_label(opt_bytes(side), prefix@, path@),
{
    match side {
        Some(_) => {
            let mut t = prefix.to_owned();
            t.append(path);
            t
        },
        None => "/dev/null".to_owned(),
    }
}

/// The side exists and has a NUL byte among its first 8192 bytes.
pub open spec fn has_leading_nul(side: Option<Seq<u8>>) -> bool {
    side matches Some(b) && exists|i: int| 0 <= i < b.len() && i < 8192 && b[i] == 0
}

/// Law: a file is diffed as binary exactly when one of its sides, old or
/// new, has a NUL byte among its first 8192 bytes; a side that does not
/// exist is never binary.
pub proof fn binary_side_gives_note(old: Option<Seq<u8>>, new: Option<Seq<u8>>)
    ensures
        any_binary(old, new) <==> (has_leading_nul(old) || has_leading_nul(new)),
        any_binary(None, new) == has_leading_nul(new),
        any_binary(old, None) == has_leading_nul(old),
{
}

/// What `cntl diff` prints for a file whose HEAD content is `old` and whose
/// working-tree content is `new` (`None` where the file does not exist):
/// the header, then a note when either side is binary, else the unified
/// diff of the two texts.
pub fn emit_diff(path: &str, old: Option<&[u8]>, new: Option<&[u8]>) -> (text: String)
    ensures
        any_binary(opt_bytes(old), opt_bytes(new)) ==> text@ == diff_header(path@) + "Binary files a/"@
            + path@ + " and b/"@ + path@ + " differ\n"@,
        !any_binary(opt_bytes(old), opt_bytes(new)) ==> text@ == diff_header(path@)
            + unified_diff_text(
            side_text(opt_bytes(old)),
            side_text(opt_bytes(new)),
            side_label(opt_bytes(old), "a/"@, path@),
            side_label(opt_bytes(new), "b/"@, path@),
        ),
        has_leading_nul(opt_bytes(old)) || has_leading_nul(opt_bytes(new)) ==> text@ == diff_header(path@)
            + "Binary files a/"@ + path@ + " and b/"@ + path@ + " differ\n"@,
{
    proof {
        binary_side_gives_note(opt_bytes(old), opt_bytes(new));
    }
    let old_binary = match old {
        Some(b) => is_binary(b),
        None => false,
    };
    let new_binary = match new {
        Some(b) => is_binary(b),
        None => false,
    };
    if old_binary || new_binary {
        let note = binary_note(path);
        return diff_block(path, note.as_str());
    }
    let old_text = side_to_text(old);
    let new_text = side_to_text(new);
    let old_label = side_to_label(old, "a/", path);
    let new_label = side_to_label(new, "b/", path);
    let unified = unified_diff(
        old_text.as_str(),
        new_text.as_str(),
        old_label.as_str(),
        new_label.as_str(),
    );
    diff_block(path, unified.as_str())
}

} // verus!
