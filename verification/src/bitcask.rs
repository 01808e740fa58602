use vstd::prelude::*;

use crate::command::{
    copy_bytes, lemma_decode_at_append, lemma_decode_encode_at, spec_decode_at, Command,
    CommandView,
};
use crate::error::{KVError, KVResult};
use crate::index::Index;
use crate::log_pointer::LogPointer;
use crate::recovery::{
    init_state, lemma_recover_from_snoc, lemma_scan_append, spec_recover, spec_recover_from,
    spec_scan, spec_step, RecoverState, SegmentView,
};

verus! {

/// One generation's segment: its id and its bytes, as the engine holds
/// them. The unverified shell that persists the log reads each `{gen}.log`
/// file into one `Segment` before `open`, and appends to the file whatever
/// the engine appends to the active segment's data.
pub struct Segment {
    pub gen: u64,
    pub data: Vec<u8>,
}

impl View for Segment {
    type V = SegmentView;

    open spec fn view(&self) -> SegmentView {
        SegmentView { gen: self.gen, data: self.data@ }
    }
}

/// The views of a list of segments.
pub open spec fn views_of(segments: Seq<Segment>) -> Seq<SegmentView> {
    segments.map_values(|s: Segment| s@)
}

/// What `open` replays when handed `files`: an empty directory counts as a
/// single fresh generation 0.
pub open spec fn norm_files(files: Seq<SegmentView>) -> Seq<SegmentView> {
    if files.len() == 0 {
        seq![SegmentView { gen: 0, data: Seq::empty() }]
    } else {
        files
    }
}

/// Generation ids strictly ascend.
pub open spec fn gens_sorted(files: Seq<SegmentView>) -> bool {
    forall|i: int, j: int| 0 <= i < j < files.len() ==> files[i].gen < files[j].gen
}

/// Pointer `p`, indexed under key `k`, locates a whole Set frame for `k`
/// inside segment `i`.
pub open spec fn resolves_to(files: Seq<SegmentView>, k: Seq<u8>, p: LogPointer, i: int) -> bool {
    &&& 0 <= i < files.len()
    &&& files[i].gen == p.gen
    &&& p.pos + p.len <= files[i].data.len()
    &&& match spec_decode_at(files[i].data, p.pos as int) {
        Some((c, t)) => t == p.len && (c matches CommandView::Put { key, .. } && key == k),
        None => false,
    }
}

/// Every indexed pointer locates a Set frame for its own key: a Remove is
/// never indexable, so an indexed pointer resolving to anything else is the
/// `CorruptIndex` invariant violation, which this predicate rules out.
pub open spec fn ptrs_resolve(files: Seq<SegmentView>, index: Map<Seq<u8>, LogPointer>) -> bool {
    forall|k: Seq<u8>| #[trigger]
        index.contains_key(k) ==> exists|i: int| resolves_to(files, k, index[k], i)
}

/// The value bytes of the record a pointer locates, read through the
/// segment whose generation the pointer names.
pub open spec fn pointed_value(files: Seq<SegmentView>, p: LogPointer) -> Seq<u8> {
    let i = choose|i: int| 0 <= i < files.len() && files[i].gen == p.gen;
    match spec_decode_at(files[i].data, p.pos as int) {
        Some((c, t)) => c.value(),
        None => Seq::empty(),
    }
}

/// With strictly ascending generations, the witness segment of a resolving
/// pointer is the one `pointed_value` reads, so the value is the decoded
/// frame's value.
pub proof fn lemma_pointed_value(files: Seq<SegmentView>, k: Seq<u8>, p: LogPointer, i: int)
    requires
        gens_sorted(files),
        resolves_to(files, k, p, i),
    ensures
        pointed_value(files, p) == spec_decode_at(files[i].data, p.pos as int).unwrap().0.value(),
{
    let j = choose|j: int| 0 <= j < files.len() && files[j].gen == p.gen;
    assert(0 <= i < files.len() && files[i].gen == p.gen);
    if j < i {
        assert(files[j].gen < files[i].gen);
    } else if i < j {
        assert(files[i].gen < files[j].gen);
    }
}

/// The segments after `ext` is appended to the active (last) one.
pub open spec fn append_last(files: Seq<SegmentView>, ext: Seq<u8>) -> Seq<SegmentView>
    recommends
        files.len() > 0,
{
    files.update(
        files.len() - 1,
        SegmentView { gen: files.last().gen, data: files.last().data + ext },
    )
}

/// Appending to the active segment moves no pointer: a pointer that
/// resolved before still resolves, to the same value.
pub proof fn lemma_pointer_stable(files: Seq<SegmentView>, ext: Seq<u8>, k: Seq<u8>, p: LogPointer)
    requires
        gens_sorted(files),
        files.len() > 0,
        exists|i: int| resolves_to(files, k, p, i),
    ensures
        gens_sorted(append_last(files, ext)),
        exists|i: int| resolves_to(append_last(files, ext), k, p, i),
        pointed_value(append_last(files, ext), p) == pointed_value(files, p),
{
    let files1 = append_last(files, ext);
    assert(forall|i: int| 0 <= i < files.len() ==> files1[i].gen == files[i].gen);
    let j = choose|j: int| resolves_to(files, k, p, j);
    if j == files.len() - 1 {
        lemma_decode_at_append(files.last().data, ext, p.pos as int);
        assert(resolves_to(files1, k, p, j));
    } else {
        assert(files1[j] == files[j]);
        assert(resolves_to(files1, k, p, j));
    }
    lemma_pointed_value(files, k, p, j);
    lemma_pointed_value(files1, k, p, j);
}

/// The log-structured storage engine: the segment contents, the in-memory
/// index over them, the active (highest) generation, and the obsolete-byte
/// accounting that decides when a future compaction pass is warranted.
pub struct Bitcask {
    segments: Vec<Segment>,
    index: Index,
    current_gen: u64,
    uncompacted: u64,
}

impl Bitcask {
    /// The segment files as the engine sees them, oldest generation first.
    pub closed spec fn files(&self) -> Seq<SegmentView> {
        views_of(self.segments@)
    }

    /// The in-memory index: each live key's pointer.
    pub closed spec fn index_map(&self) -> Map<Seq<u8>, LogPointer> {
        self.index@
    }

    /// The running total of on-disk bytes no longer reachable from the
    /// index. Advisory only; it saturates rather than overflows.
    pub closed spec fn obsolete_bytes(&self) -> u64 {
        self.uncompacted
    }

    /// The active generation: the only one open for appends.
    pub closed spec fn generation(&self) -> u64 {
        self.current_gen
    }

    /// The bytes of the active generation's segment.
    pub open spec fn active_data(&self) -> Seq<u8> {
        self.files().last().data
    }

    /// The key-value mapping the engine represents: each live key, bound to
    /// the value its indexed record holds.
    pub closed spec fn kv(&self) -> Map<Seq<u8>, Seq<u8>> {
        Map::new(
            |k: Seq<u8>| self.index@.contains_key(k),
            |k: Seq<u8>| pointed_value(self.files(), self.index@[k]),
        )
    }

    /// The engine invariant.
    ///
    /// Replaying the segments as they stand reproduces the index and the
    /// obsolete-byte counter exactly (so closing and reopening the log is
    /// lossless), and every indexed pointer resolves to a whole Set frame
    /// for its own key in the segment of its generation.
    pub closed spec fn wf(&self) -> bool {
        &&& self.files().len() > 0
        &&& gens_sorted(self.files())
        &&& self.current_gen == self.files().last().gen
        &&& self.index.wf()
        &&& spec_recover(self.files()) == Some(
            RecoverState { index: self.index@, uncompacted: self.uncompacted },
        )
        &&& ptrs_resolve(self.files(), self.index@)
    }

    /// Open an engine over the given segments, oldest generation first;
    /// an empty list stands for a fresh log and becomes a single empty
    /// generation 0.
    ///
    /// Recovery replays every segment sequentially, rebuilding the index
    /// and the obsolete-byte counter. It succeeds exactly when every frame
    /// of every segment decodes within its bounds; a truncated or malformed
    /// trailing record aborts with `CorruptLog` and the engine does not
    /// start.
    pub fn open(segments: Vec<Segment>) -> (res: KVResult<Bitcask>)
        requires
            gens_sorted(views_of(segments@)),
        ensures
            res is Ok <==> spec_recover(norm_files(views_of(segments@))) is Some,
            res matches Err(e) ==> e == KVError::CorruptLog,
            res matches Ok(engine) ==> {
                &&& engine.wf()
                &&& engine.files() == norm_files(views_of(segments@))
                &&& Some(
                    RecoverState {
                        index: engine.index_map(),
                        uncompacted: engine.obsolete_bytes(),
                    },
                ) == spec_recover(engine.files())
                &&& engine.generation() == engine.files().last().gen
            },
    {
        let mut segs = segments;
        let ghost orig = views_of(segs@);
        if segs.len() == 0 {
            segs.push(Segment { gen: 0, data: Vec::new() });
        }
        let ghost files = views_of(segs@);
        proof {
            assert(files =~= norm_files(orig));
            assert(gens_sorted(files));
        }
        let mut index = Index::new();
        let mut uncompacted: u64 = 0;
        let mut i: usize = 0;
        proof {
            assert(RecoverState { index: index@, uncompacted } =~= init_state());
        }
        while i < segs.len()
            invariant
                i <= segs@.len(),
                files == views_of(segs@),
                files == norm_files(views_of(segments@)),
                files.len() == segs@.len(),
                index.wf(),
                spec_recover_from(files, i as int, RecoverState { index: index@, uncompacted })
                    == spec_recover(files),
                forall|k: Seq<u8>| #[trigger]
                    index@.contains_key(k) ==> exists|j: int|
                        resolves_to(files, k, index@[k], j),
            decreases segs@.len() - i,
        {
            let ghost st0 = RecoverState { index: index@, uncompacted };
            let gen = segs[i].gen;
            let mut pos: usize = 0;
            while pos < segs[i].data.len()
                invariant
                    i < segs@.len(),
                    files == views_of(segs@),
                    files == norm_files(views_of(segments@)),
                    files.len() == segs@.len(),
                    gen == files[i as int].gen,
                    pos <= files[i as int].data.len(),
                    index.wf(),
                    spec_recover_from(files, i as int, st0) == spec_recover(files),
                    spec_scan(
                        files[i as int].data,
                        gen,
                        pos as int,
                        RecoverState { index: index@, uncompacted },
                    ) == spec_scan(files[i as int].data, gen, 0, st0),
                    forall|k: Seq<u8>| #[trigger]
                        index@.contains_key(k) ==> exists|j: int|
                            resolves_to(files, k, index@[k], j),
                decreases files[i as int].data.len() - pos,
            {
                let ghost st_before = RecoverState { index: index@, uncompacted };
                match Command::decode(&segs[i].data, pos) {
                    Err(_) => {
                        proof {
                            assert(spec_scan(files[i as int].data, gen, pos as int, st_before)
                                is None);
                            assert(spec_recover_from(files, i as int, st0) is None);
                            assert(spec_recover(files) is None);
                            assert(files == norm_files(views_of(segments@)));
                        }
                        return Err(KVError::CorruptLog);
                    }
                    Ok((cmd, total)) => {
                        let ghost c = cmd@;
                        let ghost t = total as int;
                        proof {
                            assert(spec_decode_at(files[i as int].data, pos as int) == Some(
                                (c, t),
                            ));
                            assert(t >= 17 && pos + t <= files[i as int].data.len());
                        }
                        match cmd {
                            Command::Put { key, value } => {
                                let ghost kview = key@;
                                let ptr = LogPointer::new(gen, pos as u64, total as u64);
                                let prev = index.insert(key, ptr);
                                match prev {
                                    Some(p) => {
                                        uncompacted = uncompacted.saturating_add(p.len);
                                    }
                                    None => {}
                                }
                                proof {
                                    assert(resolves_to(files, kview, ptr, i as int));
                                    assert forall|k: Seq<u8>| #[trigger]
                                        index@.contains_key(k) implies exists|j: int|
                                        resolves_to(files, k, index@[k], j) by {
                                        if k == kview {
                                            assert(resolves_to(files, k, index@[k], i as int));
                                        } else {
                                            assert(st_before.index.contains_key(k));
                                            assert(index@[k] == st_before.index[k]);
                                        }
                                    }
                                }
                            }
                            Command::Remove { key } => {
                                let prev = index.remove(&key);
                                match prev {
                                    Some(p) => {
                                        uncompacted = uncompacted.saturating_add(
                                            p.len,
                                        ).saturating_add(total as u64);
                                    }
                                    None => {
                                        proof {
                                            assert(index@ =~= st_before.index);
                                        }
                                    }
                                }
                                proof {
                                    assert forall|k: Seq<u8>| #[trigger]
                                        index@.contains_key(k) implies exists|j: int|
                                        resolves_to(files, k, index@[k], j) by {
                                        assert(st_before.index.contains_key(k));
                                        assert(index@[k] == st_before.index[k]);
                                    }
                                }
                            }
                        }
                        proof {
                            let st_after = RecoverState { index: index@, uncompacted };
                            assert(st_after == spec_step(st_before, gen, pos as u64, c, t as u64));
                            assert(spec_scan(files[i as int].data, gen, pos as int, st_before)
                                == spec_scan(files[i as int].data, gen, pos + t, st_after));
                        }
                        pos += total;
                    }
                }
            }
            proof {
                let st_end = RecoverState { index: index@, uncompacted };
                assert(pos == files[i as int].data.len());
                assert(spec_scan(files[i as int].data, gen, pos as int, st_end) == Some(st_end));
                assert(spec_recover_from(files, i as int, st0) == spec_recover_from(
                    files,
                    i + 1,
                    st_end,
                ));
            }
            i += 1;
        }
        let n = segs.len();
        let current_gen = segs[n - 1].gen;
        let engine = Bitcask { segments: segs, index, current_gen, uncompacted };
        proof {
            assert(spec_recover_from(files, n as int, RecoverState {
                index: engine.index@,
                uncompacted: engine.uncompacted,
            }) == Some(RecoverState { index: engine.index@, uncompacted: engine.uncompacted }));
            assert(engine.files().last() == files[n - 1]);
        }
        Ok(engine)
    }

    /// How one successful `set` relates the engine's state after to the
    /// state before: the Set frame is appended to the active segment, the
    /// key's pointer now locates that frame, the key-value mapping gains
    /// the binding, and the superseded frame's bytes, if any, became
    /// obsolete.
    pub open spec fn set_step(pre: Bitcask, post: Bitcask, key: Seq<u8>, value: Seq<u8>) -> bool {
        let c = CommandView::Put { key, value };
        let p = LogPointer {
            gen: pre.generation(),
            pos: pre.active_data().len() as u64,
            len: c.encoded_len() as u64,
        };
        &&& pre.wf()
        &&& pre.active_data().len() + c.encoded_len() <= u64::MAX
        &&& post.wf()
        &&& post.files() == append_last(pre.files(), c.encode())
        &&& post.index_map() == pre.index_map().insert(key, p)
        &&& post.kv() == pre.kv().insert(key, value)
        &&& post.obsolete_bytes() == if pre.index_map().contains_key(key) {
            pre.obsolete_bytes().saturating_add(pre.index_map()[key].len)
        } else {
            pre.obsolete_bytes()
        }
        &&& post.generation() == pre.generation()
    }

    /// How one successful `remove` relates the engine's state after to the
    /// state before: the Remove frame is appended to the active segment,
    /// the key leaves the index and the mapping, and both the cleared Set
    /// frame and the Remove frame itself became obsolete.
    pub open spec fn remove_step(pre: Bitcask, post: Bitcask, key: Seq<u8>) -> bool {
        let c = CommandView::Remove { key };
        &&& pre.wf()
        &&& pre.index_map().contains_key(key)
        &&& pre.active_data().len() + c.encoded_len() <= u64::MAX
        &&& post.wf()
        &&& post.files() == append_last(pre.files(), c.encode())
        &&& post.index_map() == pre.index_map().remove(key)
        &&& post.kv() == pre.kv().remove(key)
        &&& post.obsolete_bytes() == pre.obsolete_bytes().saturating_add(
            pre.index_map()[key].len,
        ).saturating_add(c.encoded_len() as u64)
        &&& post.generation() == pre.generation()
    }

    /// Bind `key` to `value`.
    ///
    /// Encodes a Set record, appends it to the active generation at the
    /// current end offset, and installs its pointer in the index; the
    /// superseded record's bytes, if any, are added to the obsolete-byte
    /// counter. A caller persisting the log appends the same frame (the
    /// encoding of the Set record) to the active generation's file.
    pub fn set(&mut self, key: Vec<u8>, value: Vec<u8>) -> (res: KVResult<()>)
        requires
            old(self).wf(),
            old(self).active_data().len() + (CommandView::Put {
                key: key@,
                value: value@,
            }).encoded_len() <= u64::MAX,
        ensures
            res is Ok,
            Bitcask::set_step(*old(self), *final(self), key@, value@),
    {
        let ghost pre = *self;
        let ghost kview = key@;
        let ghost vview = value@;
        let kcopy = copy_bytes(&key);
        let cmd = Command::Put { key, value };
        let frame = cmd.parse();
        let ghost c = cmd@;
        let ghost enc = c.encode();
        let n = self.segments.len();
        let pos64 = self.segments[n - 1].data.len() as u64;
        let ptr = LogPointer::new(self.current_gen, pos64, frame.len() as u64);
        let prev = self.index.insert(kcopy, ptr);
        match prev {
            Some(p) => {
                self.uncompacted = self.uncompacted.saturating_add(p.len);
            }
            None => {}
        }
        let mut seg = self.segments.pop().unwrap();
        let mut fr = frame;
        seg.data.append(&mut fr);
        self.segments.push(seg);
        proof {
            let post = *self;
            let files0 = pre.files();
            let files1 = post.files();
            let lastdata = pre.active_data();
            let g = pre.current_gen;
            let nn = files0.len();
            let stpre = RecoverState { index: pre.index@, uncompacted: pre.uncompacted };
            let stpost = RecoverState { index: post.index@, uncompacted: post.uncompacted };

            assert(files1 =~= append_last(files0, enc));

            // replaying the grown log reproduces the new state
            lemma_recover_from_snoc(files0, 0, init_state());
            let stm = spec_recover_from(files0.drop_last(), 0, init_state()).unwrap();
            assert(spec_scan(lastdata, g, 0, stm) == Some(stpre));
            lemma_recover_from_snoc(files1, 0, init_state());
            assert(files1.drop_last() =~= files0.drop_last());
            lemma_scan_append(lastdata, enc, g, 0, stm);
            lemma_decode_encode_at(lastdata, c);
            let big = lastdata + enc;
            let l = c.encoded_len();
            let stepped = spec_step(stpre, g, lastdata.len() as u64, c, l as u64);
            assert(spec_scan(big, g, lastdata.len() as int, stpre) == spec_scan(
                big,
                g,
                lastdata.len() + l,
                stepped,
            ));
            assert(spec_scan(big, g, lastdata.len() + l, stepped) == Some(stepped));
            assert(stepped == stpost);
            assert(spec_recover(files1) == Some(stpost));

            // every pointer still resolves; the new key's pointer resolves
            // to the appended frame
            assert(forall|i: int| 0 <= i < nn ==> files1[i].gen == files0[i].gen);
            assert(resolves_to(files1, kview, ptr, nn - 1));
            assert forall|k: Seq<u8>| #[trigger] post.index@.contains_key(k) implies exists|j: int|
                resolves_to(files1, k, post.index@[k], j) by {
                if k == kview {
                    assert(post.index@[k] == ptr);
                    assert(resolves_to(files1, k, post.index@[k], nn - 1));
                } else {
                    assert(pre.index@.contains_key(k));
                    let p = pre.index@[k];
                    assert(post.index@[k] == p);
                    lemma_pointer_stable(files0, enc, k, p);
                    assert(files1 == append_last(files0, enc));
                    let jw = choose|j: int| resolves_to(append_last(files0, enc), k, p, j);
                    assert(resolves_to(files1, k, p, jw));
                }
            }
            assert(post.wf());

            // the key-value mapping gains exactly this binding
            assert forall|k: Seq<u8>| #[trigger] post.kv().contains_key(k) implies post.kv()[k]
                == pre.kv().insert(kview, vview)[k] by {
                if k == kview {
                    lemma_pointed_value(files1, kview, ptr, nn - 1);
                } else {
                    lemma_pointer_stable(files0, enc, k, pre.index@[k]);
                }
            }
            assert(post.kv() =~= pre.kv().insert(kview, vview));
        }
        Ok(())
    }

    /// Look `key` up.
    ///
    /// An index miss means the key was never set or was removed: the
    /// result is `Ok(None)`, not an error. On a hit the record is read at
    /// the pointer's generation and offset and decoded; under the engine
    /// invariant the pointer always resolves to a Set record, so the
    /// `CorruptIndex` paths are provably unreachable and the call always
    /// returns `Ok`.
    pub fn get(&self, key: Vec<u8>) -> (res: KVResult<Option<Vec<u8>>>)
        requires
            self.wf(),
        ensures
            self.kv().contains_key(key@) ==> (res matches Ok(v) && v matches Some(b) && b@
                == self.kv()[key@]),
            !self.kv().contains_key(key@) ==> res == Ok::<Option<Vec<u8>>, KVError>(None),
    {
        match self.index.lookup(&key) {
            None => Ok(None),
            Some(ptr) => {
                let ghost j0 = choose|j: int| resolves_to(self.files(), key@, ptr, j);
                proof {
                    assert(self.index@.contains_key(key@));
                    assert(resolves_to(self.files(), key@, ptr, j0));
                    lemma_pointed_value(self.files(), key@, ptr, j0);
                }
                let n = self.segments.len();
                let mut i: usize = 0;
                while i < n
                    invariant
                        self.wf(),
                        n == self.segments@.len(),
                        i <= n,
                        self.index@.contains_key(key@),
                        self.index@[key@] == ptr,
                        resolves_to(self.files(), key@, ptr, j0),
                        forall|j: int| 0 <= j < i ==> self.segments@[j].gen != ptr.gen,
                    decreases n - i,
                {
                    if self.segments[i].gen == ptr.gen {
                        let dlen = self.segments[i].data.len();
                        proof {
                            if j0 < i as int {
                                assert(self.files()[j0].gen < self.files()[i as int].gen);
                            } else if j0 > i as int {
                                assert(self.files()[i as int].gen < self.files()[j0].gen);
                            }
                            assert(j0 == i as int);
                            assert(ptr.pos + ptr.len <= dlen);
                            assert((ptr.pos as usize) as int == ptr.pos as int);
                            lemma_pointed_value(self.files(), key@, ptr, j0);
                            assert(self.kv().contains_key(key@));
                            assert(self.kv()[key@] == pointed_value(self.files(), ptr));
                        }
                        match Command::decode(&self.segments[i].data, ptr.pos as usize) {
                            Ok((Command::Put { key: _, value }, _)) => {
                                return Ok(Some(value));
                            }
                            Ok((Command::Remove { .. }, _)) => {
                                proof {
                                    assert(false);
                                }
                                return Err(KVError::CorruptIndex);
                            }
                            Err(_) => {
                                proof {
                                    assert(false);
                                }
                                return Err(KVError::CorruptIndex);
                            }
                        }
                    }
                    i += 1;
                }
                proof {
                    assert(self.files()[j0].gen == ptr.gen);
                    assert(false);
                }
                Err(KVError::CorruptIndex)
            }
        }
    }

    /// Remove `key`.
    ///
    /// Removing an absent key is an error, not a no-op: the call fails
    /// with `KeyNotFound` and changes nothing. Otherwise a Remove record
    /// is appended to the active generation, the key leaves the index, and
    /// the cleared Set frame's bytes and the Remove frame's own bytes are
    /// added to the obsolete-byte counter. A caller persisting the log
    /// appends the same frame (the encoding of the Remove record) to the
    /// active generation's file.
    pub fn remove(&mut self, key: Vec<u8>) -> (res: KVResult<()>)
        requires
            old(self).wf(),
            old(self).active_data().len() + (CommandView::Remove { key: key@ }).encoded_len()
                <= u64::MAX,
        ensures
            final(self).wf(),
            res is Ok <==> old(self).kv().contains_key(key@),
            res matches Err(e) ==> e == KVError::KeyNotFound && *final(self) == *old(self),
            res is Ok ==> Bitcask::remove_step(*old(self), *final(self), key@),
    {
        let ghost pre = *self;
        let ghost kview = key@;
        if self.index.lookup(&key).is_none() {
            return Err(KVError::KeyNotFound);
        }
        let kcopy = copy_bytes(&key);
        let cmd = Command::Remove { key: kcopy };
        let frame = cmd.parse();
        let ghost c = cmd@;
        let ghost enc = c.encode();
        let flen = frame.len();
        let prev = self.index.remove(&key);
        match prev {
            Some(p) => {
                self.uncompacted = self.uncompacted.saturating_add(p.len).saturating_add(
                    flen as u64,
                );
            }
            None => {}
        }
        let mut seg = self.segments.pop().unwrap();
        let mut fr = frame;
        seg.data.append(&mut fr);
        self.segments.push(seg);
        proof {
            let post = *self;
            let files0 = pre.files();
            let files1 = post.files();
            let lastdata = pre.active_data();
            let g = pre.current_gen;
            let nn = files0.len();
            let stpre = RecoverState { index: pre.index@, uncompacted: pre.uncompacted };
            let stpost = RecoverState { index: post.index@, uncompacted: post.uncompacted };

            assert(files1 =~= append_last(files0, enc));

            // replaying the grown log reproduces the new state
            lemma_recover_from_snoc(files0, 0, init_state());
            let stm = spec_recover_from(files0.drop_last(), 0, init_state()).unwrap();
            assert(spec_scan(lastdata, g, 0, stm) == Some(stpre));
            lemma_recover_from_snoc(files1, 0, init_state());
            assert(files1.drop_last() =~= files0.drop_last());
            lemma_scan_append(lastdata, enc, g, 0, stm);
            lemma_decode_encode_at(lastdata, c);
            let big = lastdata + enc;
            let l = c.encoded_len();
            let stepped = spec_step(stpre, g, lastdata.len() as u64, c, l as u64);
            assert(spec_scan(big, g, lastdata.len() as int, stpre) == spec_scan(
                big,
                g,
                lastdata.len() + l,
                stepped,
            ));
            assert(spec_scan(big, g, lastdata.len() + l, stepped) == Some(stepped));
            assert(stepped == stpost);
            assert(spec_recover(files1) == Some(stpost));

            // the remaining pointers still resolve
            assert(forall|i: int| 0 <= i < nn ==> files1[i].gen == files0[i].gen);
            assert forall|k: Seq<u8>| #[trigger] post.index@.contains_key(k) implies exists|j: int|
                resolves_to(files1, k, post.index@[k], j) by {
                assert(pre.index@.contains_key(k));
                let p = pre.index@[k];
                assert(post.index@[k] == p);
                lemma_pointer_stable(files0, enc, k, p);
                assert(files1 == append_last(files0, enc));
                let jw = choose|j: int| resolves_to(append_last(files0, enc), k, p, j);
                assert(resolves_to(files1, k, p, jw));
            }
            assert(post.wf());

            // the key-value mapping loses exactly this key
            assert forall|k: Seq<u8>| #[trigger] post.kv().contains_key(k) implies post.kv()[k]
                == pre.kv().remove(kview)[k] by {
                lemma_pointer_stable(files0, enc, k, pre.index@[k]);
            }
            assert(post.kv() =~= pre.kv().remove(kview));
        }
        Ok(())
    }

    /// Hand the segments back, e.g. so a caller can reopen the engine over
    /// them: closing is losing nothing but the in-memory index, which
    /// `open` rebuilds.
    pub fn close(self) -> (segments: Vec<Segment>)
        ensures
            views_of(segments@) == self.files(),
    {
        self.segments
    }

    /// The running total of obsolete bytes, for deciding when a future
    /// compaction pass is warranted.
    pub fn uncompacted(&self) -> (n: u64)
        ensures
            n == self.obsolete_bytes(),
    {
        self.uncompacted
    }

    /// The active generation's id.
    pub fn current_generation(&self) -> (g: u64)
        ensures
            g == self.generation(),
    {
        self.current_gen
    }
}

/// Replaying all-empty segments changes nothing; in particular, opening
/// an empty directory always succeeds.
pub proof fn lemma_recover_empty_files(files: Seq<SegmentView>, i: int, st: RecoverState)
    requires
        0 <= i <= files.len(),
        forall|j: int| 0 <= j < files.len() ==> files[j].data.len() == 0,
    ensures
        spec_recover_from(files, i, st) == Some(st),
    decreases files.len() - i,
{
    if i < files.len() {
        assert(spec_scan(files[i].data, files[i].gen, 0, st) == Some(st));
        lemma_recover_empty_files(files, i + 1, st);
    }
}

/// Recovery fidelity: whatever sequence of operations built a well-formed
/// engine, replaying the segments it has written, oldest generation first,
/// reproduces exactly the index and the obsolete-byte counter the
/// operations left in memory.
pub proof fn lemma_recovery_fidelity(e: Bitcask)
    requires
        e.wf(),
    ensures
        spec_recover(e.files()) == Some(
            RecoverState { index: e.index_map(), uncompacted: e.obsolete_bytes() },
        ),
{
}

/// Closing and reopening is lossless: an engine recovered over the same
/// segments carries the same index, the same obsolete-byte counter, and
/// the same key-value mapping.
pub proof fn lemma_reopen(e: Bitcask, r: Bitcask)
    requires
        e.wf(),
        r.wf(),
        r.files() == e.files(),
    ensures
        r.index_map() == e.index_map(),
        r.obsolete_bytes() == e.obsolete_bytes(),
        r.kv() == e.kv(),
{
    assert(r.kv() =~= e.kv());
}

/// Last write wins: after two sets of the same key, the mapping holds the
/// second value.
pub proof fn lemma_last_write_wins(
    e0: Bitcask,
    e1: Bitcask,
    e2: Bitcask,
    k: Seq<u8>,
    v1: Seq<u8>,
    v2: Seq<u8>,
)
    requires
        Bitcask::set_step(e0, e1, k, v1),
        Bitcask::set_step(e1, e2, k, v2),
    ensures
        e2.kv().contains_key(k),
        e2.kv()[k] == v2,
{
}

/// A remove clears its key: after a set followed by a remove the key reads
/// as absent, so by `remove`'s contract a second remove of the same key
/// fails with `KeyNotFound`.
pub proof fn lemma_remove_clears(e0: Bitcask, e1: Bitcask, e2: Bitcask, k: Seq<u8>, v: Seq<u8>)
    requires
        Bitcask::set_step(e0, e1, k, v),
        Bitcask::remove_step(e1, e2, k),
    ensures
        !e2.kv().contains_key(k),
{
}

/// A freshly opened empty engine maps no key: `get` returns `None` for
/// every key never set.
pub proof fn lemma_fresh_engine_empty(e: Bitcask)
    requires
        e.wf(),
        forall|i: int| 0 <= i < e.files().len() ==> e.files()[i].data.len() == 0,
    ensures
        e.kv() == Map::<Seq<u8>, Seq<u8>>::empty(),
        e.obsolete_bytes() == 0,
{
    lemma_recover_empty_files(e.files(), 0, init_state());
    assert(e.index_map() =~= Map::<Seq<u8>, LogPointer>::empty());
    assert(e.kv() =~= Map::<Seq<u8>, Seq<u8>>::empty());
}

/// A generation rollover loses nothing: an engine recovered over the same
/// segments plus a fresh, empty, higher generation carries the same index,
/// obsolete-byte counter and key-value mapping.
pub proof fn lemma_rollover(e: Bitcask, r: Bitcask, g: u64)
    requires
        e.wf(),
        r.wf(),
        g > e.files().last().gen,
        r.files() == e.files().push(SegmentView { gen: g, data: Seq::empty() }),
    ensures
        r.index_map() == e.index_map(),
        r.obsolete_bytes() == e.obsolete_bytes(),
        r.kv() == e.kv(),
{
    let files0 = e.files();
    let files1 = r.files();
    let st_e = RecoverState { index: e.index_map(), uncompacted: e.obsolete_bytes() };
    lemma_recover_from_snoc(files1, 0, init_state());
    assert(files1.drop_last() =~= files0);
    assert(spec_scan(Seq::empty(), g, 0, st_e) == Some(st_e));
    assert(spec_recover(files1) == Some(st_e));
    assert forall|k: Seq<u8>| #[trigger] r.kv().contains_key(k) implies r.kv()[k] == e.kv()[k] by {
        let p = e.index_map()[k];
        assert(e.index_map().contains_key(k));
        let j = choose|j: int| resolves_to(files0, k, p, j);
        assert(files1[j] == files0[j]);
        assert(resolves_to(files1, k, p, j));
        lemma_pointed_value(files0, k, p, j);
        lemma_pointed_value(files1, k, p, j);
    }
    assert(r.kv() =~= e.kv());
}

/// Pointers resolve through the correct generation's segment: a key set
/// before a generation rollover and a key set after it both read back,
/// each through its own generation.
pub proof fn lemma_across_generations(
    e0: Bitcask,
    e1: Bitcask,
    r: Bitcask,
    e2: Bitcask,
    g: u64,
    k1: Seq<u8>,
    v1: Seq<u8>,
    k2: Seq<u8>,
    v2: Seq<u8>,
)
    requires
        Bitcask::set_step(e0, e1, k1, v1),
        r.wf(),
        g > e1.files().last().gen,
        r.files() == e1.files().push(SegmentView { gen: g, data: Seq::empty() }),
        Bitcask::set_step(r, e2, k2, v2),
        k1 != k2,
    ensures
        e2.kv().contains_key(k1) && e2.kv()[k1] == v1,
        e2.kv().contains_key(k2) && e2.kv()[k2] == v2,
{
    lemma_rollover(e1, r, g);
}

/// Obsolete-byte accounting: on an engine with nothing yet obsolete and
/// the key absent, setting the key twice leaves the counter at exactly the
/// encoded length of the first Set record.
pub proof fn lemma_obsolete_after_overwrite(
    e0: Bitcask,
    e1: Bitcask,
    e2: Bitcask,
    k: Seq<u8>,
    v1: Seq<u8>,
    v2: Seq<u8>,
)
    requires
        e0.obsolete_bytes() == 0,
        !e0.index_map().contains_key(k),
        Bitcask::set_step(e0, e1, k, v1),
        Bitcask::set_step(e1, e2, k, v2),
    ensures
        e2.obsolete_bytes() == (CommandView::Put { key: k, value: v1 }).encoded_len(),
{
    assert(e1.obsolete_bytes() == 0);
    assert(e1.index_map()[k].len == (CommandView::Put { key: k, value: v1 }).encoded_len() as u64);
}

} // verus!
