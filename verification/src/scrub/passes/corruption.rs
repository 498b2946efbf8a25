//! Re-hashing block files against the address they are filed under.

use vstd::prelude::*;
use vstd::string::*;

use crate::hasher::Hasher;
use crate::metastore::traits::Store;
use crate::scrub::disk::{BlockFile, FileView};
use crate::scrub::findings::{Finding, FindingClass, FindingView};
use crate::scrub::ScrubContext;
use crate::text::{dec, hex, put_len_dec};

verus! {

/// What was read of a file: its bytes, or why it could not be read.
pub open spec fn content_view(content: Result<Vec<u8>, String>) -> Result<Seq<u8>, Seq<char>> {
    match content {
        Ok(bytes) => Ok(bytes@),
        Err(e) => Err(e@),
    }
}

/// What is wrong with the bytes of a block file, if anything is: they hash to
/// another address, or they could not be read at all.
pub open spec fn rotten(
    hasher: Hasher,
    file: FileView,
    content: Result<Seq<u8>, Seq<char>>,
) -> Option<FindingView> {
    match content {
        Ok(bytes) => if hasher.address(bytes) == file.id {
            None
        } else {
            Some(
                FindingView::new(
                    FindingClass::CorruptBlock,
                    dec(bytes.len()) + " bytes hash to "@ + hex(hasher.address(bytes))
                        + ", but the file is filed under "@ + hex(file.id),
                ).with_block(file.id).with_path(file.path),
            )
        },
        Err(e) => Some(
            FindingView::new(
                FindingClass::CorruptBlock,
                "could not be read, so it cannot be verified: "@ + e,
            ).with_block(file.id).with_path(file.path),
        ),
    }
}

/// Checks what was read of one block file against the address it is filed
/// under.
///
/// The file's name is the expected hash, so no record lookup is needed. A file
/// that cannot be read is reported as corrupt too: swallowing it would let an
/// unreadable block pass for a verified one.
pub fn corruption_scrub<N: Store, B: Store>(
    ctx: &ScrubContext<'_, N, B>,
    file: &BlockFile,
    content: &Result<Vec<u8>, String>,
) -> (out: Option<Finding>)
    ensures
        match out {
            Some(finding) => rotten(ctx.shared.hasher, file@, content_view(*content)) == Some(
                finding@,
            ),
            None => rotten(ctx.shared.hasher, file@, content_view(*content)) is None,
        },
{
    match content {
        Ok(bytes) => {
            let actual = ctx.shared().hasher().hash(bytes);
            if actual.same(&file.id) {
                return None;
            }
            let mut text = String::new();
            put_len_dec(&mut text, bytes.len());
            text.append(" bytes hash to ");
            text.append(&actual.to_hex());
            text.append(", but the file is filed under ");
            text.append(&file.id.to_hex());
            proof {
                assert(text@ =~= dec(bytes@.len()) + " bytes hash to "@ + hex(actual@)
                    + ", but the file is filed under "@ + hex(file.id@));
            }
            Some(
                Finding::new(FindingClass::CorruptBlock, text).with_block(&file.id).with_path(
                    &file.path,
                ),
            )
        },
        Err(e) => {
            let mut text = "could not be read, so it cannot be verified: ".to_owned();
            text.append(e);
            Some(
                Finding::new(FindingClass::CorruptBlock, text).with_block(&file.id).with_path(
                    &file.path,
                ),
            )
        },
    }
}

} // verus!
