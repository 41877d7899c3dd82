//! Opening layers and making room for them.

use crate::file_picker::arrange;
use crate::file_picker::compact;
use crate::file_picker::sync;
use crate::file_picker::sync::{DirModel, FileModel, FileSync};
use crate::index::layers;
use crate::index::layers::{LayerId, LayerStack, LayerStore, MAX_OVERLAY_LAYERS};
use crate::index::path_index::SlotPaths;
use crate::sorting;
use vstd::prelude::*;

verus! {

/// The tables of `new` are those of `old`, with overlay files from slot `from`
/// on in another order and, where two layers were merged, their ids shifted.
pub open spec fn carried(old_sync: FileSync, new_sync: FileSync, merged: bool, from: int) -> bool {
    let n = old_sync.files.items@.len();
    &&& exists|order: Seq<usize>| #[trigger]
        sorting::is_permutation(order, n) && arrange::moves_within(order, from, n as int)
            && is_carried(old_sync.file_models(), new_sync.file_models(), merged, order)
    &&& new_sync.dir_models().len() == old_sync.dir_models().len()
    &&& forall|i: int|
        0 <= i < new_sync.dir_models().len() ==> #[trigger] new_sync.dir_models()[i]
            == carried_dir(old_sync.dir_models()[i], merged)
    &&& arrange::same_counts(old_sync, new_sync)
}

pub open spec fn is_carried(
    before: Seq<FileModel>,
    after: Seq<FileModel>,
    merged: bool,
    order: Seq<usize>,
) -> bool {
    &&& after.len() == before.len() == order.len()
    &&& forall|i: int|
        0 <= i < after.len() ==> #[trigger] after[i] == carried_file(
            before[order[i] as int],
            merged,
        )
}

pub open spec fn carried_file(f: FileModel, merged: bool) -> FileModel {
    if merged {
        compact::shifted(f, 3)
    } else {
        f
    }
}

pub open spec fn carried_dir(d: DirModel, merged: bool) -> DirModel {
    if merged {
        compact::shifted_dir(d, 3)
    } else {
        d
    }
}

proof fn lemma_compose(first: Seq<usize>, second: Seq<usize>, n: nat, from: int) -> (both: Seq<
    usize,
>)
    requires
        sorting::is_permutation(first, n),
        sorting::is_permutation(second, n),
        arrange::moves_within(first, from, n as int),
        arrange::moves_within(second, from, n as int),
        0 <= from <= n <= usize::MAX,
    ensures
        both == Seq::new(n, |i: int| first[second[i] as int]),
        sorting::is_permutation(both, n),
        arrange::moves_within(both, from, n as int),
{
    let both = Seq::new(n, |i: int| first[second[i] as int]);
    assert forall|x: int, y: int| 0 <= x < y < both.len() implies #[trigger] both[x]
        != #[trigger] both[y] by {
        assert(second[x] != second[y]);
        if second[x] < second[y] {
            assert(first[second[x] as int] != first[second[y] as int]);
        } else {
            assert(first[second[y] as int] != first[second[x] as int]);
        }
    }
    both
}

proof fn lemma_moves_wider(order: Seq<usize>, inner: int, outer: int, n: int)
    requires
        arrange::moves_within(order, inner, n),
        order.len() == n,
        0 <= outer <= inner <= n,
    ensures
        arrange::moves_within(order, outer, n),
{
    assert forall|i: int| outer <= i < n implies outer <= (#[trigger] order[i]) < n by {
        if i < inner {
            assert(order[i] == i);
        }
    }
}

impl FileSync {
    /// A merge of the two newest of four layers fits one arena.
    pub open spec fn can_merge(&self) -> bool {
        self.layers.layers@.len() >= MAX_OVERLAY_LAYERS ==> self.merge_cost(3) <= u32::MAX
    }

    /// Whether the next layer takes a merge first.
    pub open spec fn is_full(&self) -> bool {
        self.layers.layers@.len() >= MAX_OVERLAY_LAYERS
    }

    /// First slot that making room for a layer may move.
    pub open spec fn fixed_slots(&self) -> int {
        if self.is_full() {
            self.file_starts()[2] as int
        } else {
            self.file_starts().last() as int
        }
    }

    /// Merges the two newest layers where the stack is full.
    fn make_room(&mut self)
        requires
            old(self).wf(),
            old(self).can_merge(),
        ensures
            final(self).wf(),
            !final(self).is_full(),
            carried(*old(self), *final(self), old(self).is_full(), old(self).fixed_slots()),
            old(self).is_full() ==> compact::layers_merged(old(self).layers, final(self).layers, 2)
                && final(self).layers.layers@[2].sorted,
            !old(self).is_full() ==> *final(self) == *old(self),
            old(self).ordered() ==> final(self).ordered(),
    {
        let ghost before = *self;
        let ghost n = before.files.items@.len();
        if self.layers.is_full() {
            self.compact_layers_at(self.layers.merge_candidate());
            proof {
                assert(compact::merged_end(before, 2) == n);
                let order = choose|order: Seq<usize>| #[trigger]
                    sorting::is_permutation(order, n) && arrange::moves_within(
                        order,
                        before.file_starts()[2] as int,
                        n as int,
                    ) && self.file_models().len() == before.file_models().len() && forall|i: int|
                        0 <= i < self.file_models().len() ==> #[trigger] self.file_models()[i]
                            == compact::shifted(before.file_models()[order[i] as int], 3);
                assert(is_carried(before.file_models(), self.file_models(), true, order));
            }
        } else {
            proof {
                let order = arrange::unmoved(n);
                assert(n == self.files.items.len());
                assert(sorting::is_permutation(order, n));
                arrange::lemma_span(before, before.layers.layers@.len() - 1);
                assert(arrange::moves_within(order, before.fixed_slots(), n as int));
                assert(is_carried(before.file_models(), self.file_models(), false, order));
            }
        }
    }

    /// Seals the top layer, then makes room for one above it.
    pub fn seal_and_make_room(&mut self)
        requires
            old(self).wf(),
            old(self).can_merge(),
        ensures
            final(self).wf(),
            !final(self).is_full(),
            forall|i: int|
                0 <= i < final(self).layers.layers@.len() ==> (
                #[trigger] final(self).layers.layers@[i]).store is Sealed,
            carried(*old(self), *final(self), old(self).is_full(), old(self).fixed_slots()),
            labels_kept(old(self).layers, final(self).layers),
            old(self).ordered() ==> final(self).ordered(),
    {
        let ghost before = *self;
        let ghost n = before.files.items@.len();
        assert(n == self.files.items.len());
        self.seal_top_sorted();
        let ghost sealed = *self;
        let ghost first = choose|order: Seq<usize>| #[trigger]
            sorting::is_permutation(order, n) && arrange::moves_within(
                order,
                before.file_starts().last() as int,
                n as int,
            ) && sealed.file_models() == sorting::permuted(before.file_models(), order);
        proof {
            lemma_sealed_starts(before, sealed);
            if before.is_full() {
                let fc = compact::file_merge_costs(before.file_models(), 3);
                sorting::lemma_total_permuted(fc, first);
                assert(compact::file_merge_costs(sealed.file_models(), 3) =~= sorting::permuted(
                    fc,
                    first,
                ));
            }
        }
        self.make_room();
        proof {
            let from = before.fixed_slots();
            let second = choose|order: Seq<usize>| #[trigger]
                sorting::is_permutation(order, n) && arrange::moves_within(
                    order,
                    sealed.fixed_slots(),
                    n as int,
                ) && is_carried(
                    sealed.file_models(),
                    self.file_models(),
                    sealed.is_full(),
                    order,
                );
            arrange::lemma_span(before, before.layers.layers@.len() - 1);
            if before.is_full() {
                arrange::lemma_span(before, 2);
                assert(before.file_starts()[2] <= before.file_starts()[3]);
            }
            lemma_moves_wider(first, before.file_starts().last() as int, from, n as int);
            let both = lemma_compose(first, second, n, from);
            assert(is_carried(
                before.file_models(),
                self.file_models(),
                before.is_full(),
                both,
            )) by {
                assert forall|i: int|
                    0 <= i < self.file_models().len() implies #[trigger] self.file_models()[i]
                    == carried_file(before.file_models()[both[i] as int], before.is_full()) by {
                    assert(self.file_models()[i] == carried_file(
                        sealed.file_models()[second[i] as int],
                        before.is_full(),
                    ));
                }
            }
            assert forall|i: int|
                0 <= i < self.dir_models().len() implies #[trigger] self.dir_models()[i]
                == carried_dir(before.dir_models()[i], before.is_full()) by {
                assert(self.dir_models()[i] == carried_dir(
                    sealed.dir_models()[i],
                    before.is_full(),
                ));
            }
            assert forall|i: int| 0 <= i < self.layers.layers@.len() implies (
            #[trigger] self.layers.layers@[i]).store is Sealed by {
                if before.is_full() && i < 2 {
                    assert(self.layers.layers@[i] == sealed.layers.layers@[i]);
                }
            }
            assert(labels_kept(before.layers, self.layers)) by {
                assert forall|i: int|
                    0 <= i < self.layers.layers@.len() implies (
                #[trigger] self.layers.layers@[i]).label == before.layers.layers@[i].label by {
                    let k = before.layers.layers@.len() - 1;
                    if i < k {
                        assert(sealed.layers.layers@.take(k)[i] == before.layers.layers@.take(k)[i]);
                    }
                    if before.is_full() && i < 2 {
                        assert(self.layers.layers@[i] == sealed.layers.layers@[i]);
                    }
                }
            }
        }
    }
}

/// Each layer that is left has the label it had.
pub open spec fn labels_kept(a: LayerStack, b: LayerStack) -> bool {
    &&& b.layers@.len() == if a.layers@.len() >= MAX_OVERLAY_LAYERS {
        a.layers@.len() - 1
    } else {
        a.layers@.len() as int
    }
    &&& forall|i: int|
        0 <= i < b.layers@.len() ==> (#[trigger] b.layers@[i]).label == a.layers@[i].label
}

proof fn lemma_sealed_starts(a: FileSync, b: FileSync)
    requires
        a.wf(),
        arrange::top_sealed(a.layers, b.layers),
    ensures
        b.file_starts() == a.file_starts(),
        b.dir_starts() == a.dir_starts(),
{
    let n = a.layers.layers@.len() as int;
    assert forall|i: int| 0 <= i < n - 1 implies #[trigger] b.layers.layers@[i]
        == a.layers.layers@[i] by {
        assert(b.layers.layers@.take(n - 1)[i] == a.layers.layers@.take(n - 1)[i]);
    }
    assert(b.file_starts() =~= a.file_starts());
    assert(b.dir_starts() =~= a.dir_starts());
}

/// A new empty layer above the others.
pub open spec fn layer_opened(a: FileSync, b: FileSync) -> bool {
    let n = a.layers.layers@.len() as int;
    &&& b == (FileSync { layers: b.layers, ..a })
    &&& b.layers.wf()
    &&& b.layers.layers@.len() == n + 1
    &&& b.layers.layers@.take(n) == a.layers.layers@
    &&& b.layers.layers@[n].files_start == a.files.items@.len()
    &&& b.layers.layers@[n].dirs_start == a.dirs.items@.len()
}

/// Opening a layer moves nothing.
pub proof fn lemma_opened(a: FileSync, b: FileSync)
    requires
        a.wf(),
        !a.is_full(),
        a.layers.layers@.last().store is Sealed,
        layer_opened(a, b),
    ensures
        b.wf(),
        b.file_models() == a.file_models(),
        b.dir_models() == a.dir_models(),
        a.ordered() ==> b.ordered(),
{
    let n = a.layers.layers@.len() as int;
    let len = a.files.items@.len() as int;
    assert forall|i: int| 0 <= i < n implies #[trigger] b.layers.layers@[i]
        == a.layers.layers@[i] by {
        assert(b.layers.layers@.take(n)[i] == b.layers.layers@[i]);
    }
    assert(arrange::arenas_grow(a.layers, b.layers)) by {
        assert forall|i: int|
            0 <= i < n implies match (#[trigger] a.layers.layers@[i]).store.arena() {
            Some(x) => b.layers.layers@[i].store.arena() matches Some(y) && y.wf() && y.extends(x),
            None => true,
        } by {
            assert(a.layers.layers@[i].store.wf());
            assert(b.layers.layers@[i] == a.layers.layers@[i]);
            match a.layers.layers@[i].store.arena() {
                Some(x) => {
                    assert(x.chunks@.take(x.chunks@.len() as int) =~= x.chunks@);
                    assert(x.indices@.take(x.indices@.len() as int) =~= x.indices@);
                },
                None => {},
            }
        }
    }
    arrange::lemma_rows_kept(a, b);
    assert(b.file_starts() =~= a.file_starts().push(len as usize));
    assert(b.dir_starts() =~= a.dir_starts().push(a.dirs.items@.len() as usize));
    lemma_starts_pushed(a.file_starts(), a.base_count as int, len);
    lemma_starts_pushed(
        a.dir_starts(),
        a.base_dirs_count as int,
        a.dirs.items@.len() as int,
    );
    assert forall|i: int| 0 <= i < b.files.items@.len() implies #[trigger] b.file_ok(i) by {
        assert(a.file_ok(i));
        assert(b.file_slots().readable(i));
    }
    assert forall|i: int| 0 <= i < b.dirs.items@.len() implies #[trigger] b.dir_ok(i) by {
        assert(a.dir_ok(i));
        assert(b.dir_slots().readable(i));
    }
    assert forall|i: int| 0 <= i < b.layers.layers@.len() - 1 implies (
    #[trigger] b.layers.layers@[i]).store is Sealed by {
        assert(b.layers.layers@[i] == a.layers.layers@[i]);
    }
    assert(b.wf());
    if a.ordered() {
        assert forall|l: int|
            0 <= l < b.layers.layers@.len() && (
            #[trigger] b.layers.layers@[l]).sorted implies sync::keys_ascend(
            b.file_models(),
            b.layers.file_span(l, len).0,
            b.layers.file_span(l, len).1,
        ) by {
            arrange::lemma_span(b, l);
            if l < n {
                arrange::lemma_span(a, l);
                assert(a.layers.layers@[l].sorted);
            }
        }
    }
}

proof fn lemma_starts_pushed(starts: Seq<usize>, base: int, len: int)
    requires
        sync::starts_in_order(starts, base, len),
        0 <= len <= usize::MAX,
    ensures
        sync::starts_in_order(starts.push(len as usize), base, len),
{
    let pushed = starts.push(len as usize);
    assert forall|a: int, b: int| 0 <= a <= b < pushed.len() implies #[trigger] pushed[a]
        <= #[trigger] pushed[b] <= len by {
        if a < starts.len() {
            assert(starts[a] <= starts[a] <= len);
            if b < starts.len() {
                assert(starts[a] <= starts[b] <= len);
            }
        }
    }
}

impl FileSync {
    /// Seals the writable overlay and opens a new one, returning its id. At the
    /// cap the two newest layers are compacted into one first.
    pub fn create_layer(&mut self, label: Option<&str>) -> (id: LayerId)
        requires
            old(self).wf(),
            old(self).can_merge(),
        ensures
            final(self).wf(),
            id == final(self).layers.layers@.len(),
            id == (if old(self).is_full() {
                MAX_OVERLAY_LAYERS as nat
            } else {
                old(self).layers.layers@.len() + 1
            }),
            carried(*old(self), *final(self), old(self).is_full(), old(self).fixed_slots()),
            forall|i: int|
                0 <= i < id - 1 ==> (#[trigger] final(self).layers.layers@[i]).label == old(
                    self).layers.layers@[i].label,
            opened_as(*final(self), label),
            old(self).ordered() ==> final(self).ordered(),
    {
        let ghost before = *self;
        self.seal_and_make_room();
        let ghost sealed = *self;
        self.layers.open_new(label, self.files.len(), self.dirs.len());
        proof {
            assert(self.layers.layers@.take(sealed.layers.layers@.len() as int)
                =~= self.layers.layers@.drop_last());
            lemma_opened(sealed, *self);
            assert forall|i: int| 0 <= i < sealed.layers.layers@.len() implies (
            #[trigger] self.layers.layers@[i]).label == before.layers.layers@[i].label by {
                assert(self.layers.layers@.drop_last()[i] == self.layers.layers@[i]);
                assert(sealed.layers.layers@[i].label == before.layers.layers@[i].label);
            }
        }
        self.layers.top_id()
    }

    /// The id of the writable layer. Sealed layers are immutable: a sealed top
    /// (imported or adopted) gets a fresh open layer above it first.
    pub fn ensure_open_top(&mut self) -> (id: LayerId)
        requires
            old(self).wf(),
            old(self).can_merge(),
        ensures
            final(self).wf(),
            id == final(self).layers.layers@.len(),
            final(self).layers.layers@.last().store is Open,
            old(self).layers.layers@.last().store is Open ==> *final(self) == *old(self),
            old(self).layers.layers@.last().store is Sealed ==> {
                &&& carried(
                    *old(self),
                    *final(self),
                    old(self).is_full(),
                    old(self).fixed_slots(),
                )
                &&& opened_as(*final(self), None)
            },
            old(self).ordered() ==> final(self).ordered(),
    {
        if !self.layers.top_is_open() {
            self.make_room();
            let ghost roomy = *self;
            self.layers.open_new(None, self.files.len(), self.dirs.len());
            proof {
                assert(self.layers.layers@.take(roomy.layers.layers@.len() as int)
                    =~= self.layers.layers@.drop_last());
                lemma_opened(roomy, *self);
            }
        }
        self.layers.top_id()
    }
}

/// The top layer is open, empty and has this label.
pub open spec fn opened_as(sync: FileSync, label: Option<&str>) -> bool {
    let top = sync.layers.layers@.last();
    &&& top.store == LayerStore::Open(None)
    &&& top.files_start == sync.files.items@.len()
    &&& top.dirs_start == sync.dirs.items@.len()
    &&& !top.sorted
    &&& layers::label_text(top.label) == (match label {
        Some(text) => Some(text@),
        None => None,
    })
}

} // verus!
