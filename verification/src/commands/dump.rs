//! The listing of the files that come with the program.

use vstd::prelude::*;
use vstd::utf8::{decode_utf8, valid_utf8};

use crate::number::{decimal, decimal_of};
use crate::theme::{Asset, Assets};
use crate::utf8::{from_utf8, utf8};

verus! {

/// What the listing shows of a file's contents: its text, or the number of its bytes where it is
/// not valid UTF-8.
pub open spec fn content_text(data: Seq<u8>) -> Seq<char> {
    match utf8(data) {
        Some(t) => t,
        None => "<"@ + decimal(data.len()) + " bytes binary>"@,
    }
}

/// The listing of one file: its path, and then its contents.
pub open spec fn file_text(f: Asset) -> Seq<char> {
    "===== "@ + f.path@ + " =====\n"@ + content_text(f.data@) + "\n"@
}

/// The listing of the given files.
pub open spec fn files_text(files: Seq<Asset>) -> Seq<char>
    decreases files.len(),
{
    if files.len() == 0 {
        seq![]
    } else {
        files_text(files.drop_last()) + file_text(files.last())
    }
}

/// Lists the files that come with the program, in their order.
pub fn run(assets: &Assets) -> (r: String)
    ensures
        r@ == files_text(assets.files@),
{
    let mut out = String::new();
    for i in 0..assets.files.len()
        invariant
            out@ == files_text(assets.files@.take(i as int)),
    {
        let file = &assets.files[i];
        let ghost before = out@;
        assert(assets.files@.take(i + 1).drop_last() == assets.files@.take(i as int));
        out.append("===== ");
        out.append(file.path.as_str());
        out.append(" =====\n");
        match from_utf8(file.data.as_slice()) {
            Some(s) => {
                out.append(s);
            },
            None => {
                out.append("<");
                out.append(decimal_of(file.data.len() as u128).as_str());
                out.append(" bytes binary>");
            },
        }
        out.append("\n");
        assert(out@ == before + file_text(*file));
    }
    assert(assets.files@.take(assets.files@.len() as int) == assets.files@);
    out
}

/// Files are listed one after the other. Each is shown under its path, with its text as it is, or
/// with the number of its bytes where they are no text.
pub proof fn law_files_are_listed_in_order(a: Seq<Asset>, b: Seq<Asset>, f: Asset)
    ensures
        files_text(a + b) == files_text(a) + files_text(b),
        files_text(Seq::<Asset>::empty()).len() == 0,
        valid_utf8(f.data@) ==> files_text(seq![f]) == "===== "@ + f.path@ + " =====\n"@
            + decode_utf8(f.data@) + "\n"@,
        !valid_utf8(f.data@) ==> files_text(seq![f]) == "===== "@ + f.path@ + " =====\n"@ + ("<"@
            + decimal(f.data@.len()) + " bytes binary>"@) + "\n"@,
    decreases b.len(),
{
    assert(seq![f].drop_last() == Seq::<Asset>::empty());
    assert(files_text(seq![f].drop_last()) == Seq::<char>::empty());
    assert(files_text(seq![f]) == file_text(f));
    if b.len() > 0 {
        law_files_are_listed_in_order(a, b.drop_last(), f);
        assert((a + b).drop_last() == a + b.drop_last());
        assert((a + b).last() == b.last());
        assert(files_text(a + b) == files_text(a) + files_text(b));
    } else {
        assert(a + b == a);
        assert(files_text(a + b) == files_text(a) + files_text(b));
    }
}

} // verus!
