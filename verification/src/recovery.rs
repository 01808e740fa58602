use vstd::prelude::*;

use crate::command::{lemma_decode_at_append, spec_decode_at, CommandView};
use crate::log_pointer::LogPointer;

verus! {

/// The contents of one generation's segment file, as the engine models it:
/// the generation id and the file's bytes.
pub struct SegmentView {
    pub gen: u64,
    pub data: Seq<u8>,
}

/// What replay reconstructs: the index and the running total of obsolete
/// bytes (bytes of records no longer reachable from the index).
pub struct RecoverState {
    pub index: Map<Seq<u8>, LogPointer>,
    pub uncompacted: u64,
}

/// The state replay starts from: an empty index, nothing obsolete.
pub open spec fn init_state() -> RecoverState {
    RecoverState { index: Map::empty(), uncompacted: 0 }
}

/// How one record, framed at `pos` in generation `gen` with total length
/// `total`, advances the replay state.
///
/// A Set installs a pointer to its own frame; the frame it supersedes, if
/// any, becomes obsolete. A Remove clears the key; the cleared Set frame
/// and the Remove frame itself both become obsolete. A Remove of an absent
/// key changes nothing. The obsolete-byte counter is advisory only and
/// saturates rather than overflows.
pub open spec fn spec_step(
    st: RecoverState,
    gen: u64,
    pos: u64,
    c: CommandView,
    total: u64,
) -> RecoverState {
    match c {
        CommandView::Put { key, value } => RecoverState {
            index: st.index.insert(key, LogPointer { gen, pos, len: total }),
            uncompacted: if st.index.contains_key(key) {
                st.uncompacted.saturating_add(st.index[key].len)
            } else {
                st.uncompacted
            },
        },
        CommandView::Remove { key } => {
            if st.index.contains_key(key) {
                RecoverState {
                    index: st.index.remove(key),
                    uncompacted: st.uncompacted.saturating_add(st.index[key].len).saturating_add(
                        total,
                    ),
                }
            } else {
                st
            }
        }
    }
}

/// Sequential replay of one segment's bytes from `pos` on: each frame in
/// turn advances the state; a frame that does not decode, or whose total
/// would run past the buffer, stops replay with `None` (a corrupt log).
pub open spec fn spec_scan(data: Seq<u8>, gen: u64, pos: int, st: RecoverState) -> Option<
    RecoverState,
>
    decreases data.len() - pos,
{
    if pos < 0 || pos >= data.len() {
        Some(st)
    } else {
        match spec_decode_at(data, pos) {
            None => None,
            Some((c, total)) => {
                if total < 1 || pos + total > data.len() {
                    None
                } else {
                    spec_scan(data, gen, pos + total, spec_step(st, gen, pos as u64, c, total as u64))
                }
            }
        }
    }
}

/// Replay of all segments from the `i`th on, oldest generation first.
pub open spec fn spec_recover_from(files: Seq<SegmentView>, i: int, st: RecoverState) -> Option<
    RecoverState,
>
    decreases files.len() - i,
{
    if i < 0 || i >= files.len() {
        Some(st)
    } else {
        match spec_scan(files[i].data, files[i].gen, 0, st) {
            None => None,
            Some(st2) => spec_recover_from(files, i + 1, st2),
        }
    }
}

/// Full recovery: replay every segment, oldest generation first, starting
/// from the empty state.
pub open spec fn spec_recover(files: Seq<SegmentView>) -> Option<RecoverState> {
    spec_recover_from(files, 0, init_state())
}

/// Replay does not look back: once a scan has consumed `data`, appending
/// `ext` behind it only makes the scan continue from `data`'s end, in the
/// state the consumed part produced.
pub proof fn lemma_scan_append(data: Seq<u8>, ext: Seq<u8>, gen: u64, pos: int, st: RecoverState)
    requires
        0 <= pos <= data.len(),
        spec_scan(data, gen, pos, st) is Some,
    ensures
        spec_scan(data + ext, gen, pos, st) == spec_scan(
            data + ext,
            gen,
            data.len() as int,
            spec_scan(data, gen, pos, st).unwrap(),
        ),
    decreases data.len() - pos,
{
    assert((data + ext).len() == data.len() + ext.len());
    if pos >= data.len() {
        assert(pos == data.len());
    } else {
        let (c, total) = spec_decode_at(data, pos).unwrap();
        lemma_decode_at_append(data, ext, pos);
        let st2 = spec_step(st, gen, pos as u64, c, total as u64);
        lemma_scan_append(data, ext, gen, pos + total, st2);
    }
}

/// Replay of a list of segments is the replay of all but the last,
/// followed by the scan of the last.
pub proof fn lemma_recover_from_snoc(files: Seq<SegmentView>, i: int, st: RecoverState)
    requires
        0 <= i < files.len(),
    ensures
        spec_recover_from(files, i, st) == match spec_recover_from(files.drop_last(), i, st) {
            None => None::<RecoverState>,
            Some(st1) => spec_scan(files.last().data, files.last().gen, 0, st1),
        },
    decreases files.len() - i,
{
    if i == files.len() - 1 {
        assert(spec_recover_from(files.drop_last(), i, st) == Some(st));
        match spec_scan(files[i].data, files[i].gen, 0, st) {
            None => {}
            Some(st2) => {
                assert(spec_recover_from(files, i + 1, st2) == Some(st2));
            }
        }
    } else {
        assert(files.drop_last()[i] == files[i]);
        match spec_scan(files[i].data, files[i].gen, 0, st) {
            None => {}
            Some(st2) => {
                lemma_recover_from_snoc(files, i + 1, st2);
            }
        }
    }
}

} // verus!
