//! The text of the empty-folder report.
use vstd::prelude::*;
use crate::text::{chars_of, decimal, decimal_spec, push_all, string_of};

verus! {

/// One line per folder, each `" - "`, the folder, and a line break.
pub open spec fn folder_lines(f: Seq<String>) -> Seq<char>
    decreases f.len(),
{
    if f.len() == 0 {
        seq![]
    } else {
        folder_lines(f.drop_last()) + " - "@ + f.last()@ + "\n"@
    }
}

/// The report: a header line, a count line, then one line per folder.
pub open spec fn report_spec(f: Seq<String>) -> Seq<char> {
    "Empty Folders Report:\n"@ + "Found "@ + decimal_spec(f.len()) + " empty folders.\n"@
        + folder_lines(f)
}

/// The text of the empty-folder report for `folders`.
pub fn empty_folder_report(folders: &Vec<String>) -> (r: String)
    ensures
        r@ == report_spec(folders@),
{
    let mut out = chars_of("Empty Folders Report:\n");
    push_all(&mut out, &chars_of("Found "));
    push_all(&mut out, &chars_of(decimal(folders.len() as u64).as_str()));
    push_all(&mut out, &chars_of(" empty folders.\n"));
    let ghost head = out@;
    assert(head == "Empty Folders Report:\n"@ + "Found "@ + decimal_spec(folders@.len()) + " empty folders.\n"@);
    let mut i: usize = 0;
    while i < folders.len()
        invariant
            i <= folders@.len(),
            out@ == head + folder_lines(folders@.subrange(0, i as int)),
        decreases folders@.len() - i,
    {
        assert(folders@.subrange(0, i + 1).drop_last() == folders@.subrange(0, i as int));
        let ghost before = out@;
        push_all(&mut out, &chars_of(" - "));
        push_all(&mut out, &chars_of(folders[i].as_str()));
        push_all(&mut out, &chars_of("\n"));
        assert(out@ == head + (folder_lines(folders@.subrange(0, i as int)) + " - "@ + folders@[i as int]@
            + "\n"@));
        i = i + 1;
    }
    assert(folders@.subrange(0, folders@.len() as int) == folders@);
    string_of(&out)
}

} // verus!
