//! The two kinds of item a prompt copy can hold, behind one trait: a bare
//! [`ResponseItem`] and a [`ResponseItemEnvelope`] that carries harness
//! metadata beside the item.

use vstd::prelude::*;

use crate::items::{ItemModel, ResponseItem};

verus! {

/// Metadata the harness keeps beside an item of the history.
#[derive(Debug, Clone, Copy, PartialEq, Eq, Default)]
pub struct CodexHarnessMetadata {
    pub client_authored: bool,
    pub fallback_token_limit_override: Option<u64>,
}

/// An item of the history together with its harness metadata.
#[derive(Debug, Clone, PartialEq)]
pub struct ResponseItemEnvelope {
    pub item: ResponseItem,
    pub metadata: Option<CodexHarnessMetadata>,
}

impl ResponseItemEnvelope {
    /// An envelope with no metadata.
    pub fn new(item: ResponseItem) -> (envelope: Self)
        ensures
            envelope.item == item,
            envelope.metadata is None,
    {
        ResponseItemEnvelope { item, metadata: None }
    }
}

/// The model of an item of a prompt copy: the item's model and the metadata
/// that travels with it (`None` for a bare item).
pub struct CopyView {
    pub item: ItemModel,
    pub metadata: Option<CodexHarnessMetadata>,
}

impl CopyView {
    /// The same entry with its item replaced and its metadata kept.
    pub open spec fn with_item(self, item: ItemModel) -> CopyView {
        CopyView { item, metadata: self.metadata }
    }

    /// An entry made from an item alone.
    pub open spec fn bare(item: ItemModel) -> CopyView {
        CopyView { item, metadata: None }
    }
}

/// An item of a prompt copy. Both kinds can be normalized without touching
/// persisted data.
pub trait PromptCopyItem: Sized {
    /// The model of this entry.
    spec fn copy_view(&self) -> CopyView;

    /// The item this entry holds.
    fn response_item(&self) -> (item: &ResponseItem)
        ensures
            item@ == self.copy_view().item,
    ;

    /// A mutable borrow of the item; what is written through it becomes the
    /// entry's item, and the metadata stays as it was.
    fn response_item_mut(&mut self) -> (item: &mut ResponseItem)
        ensures
            item@ == old(self).copy_view().item,
            final(self).copy_view() == old(self).copy_view().with_item(final(item)@),
    ;

    /// An entry made from a bare item.
    fn from_response_item(item: ResponseItem) -> (entry: Self)
        ensures
            entry.copy_view() == CopyView::bare(item@),
    ;
}

impl PromptCopyItem for ResponseItem {
    open spec fn copy_view(&self) -> CopyView {
        CopyView::bare(self@)
    }

    fn response_item(&self) -> (item: &ResponseItem) {
        self
    }

    fn response_item_mut(&mut self) -> (item: &mut ResponseItem) {
        self
    }

    fn from_response_item(item: ResponseItem) -> (entry: Self) {
        item
    }
}

impl PromptCopyItem for ResponseItemEnvelope {
    open spec fn copy_view(&self) -> CopyView {
        CopyView { item: self.item@, metadata: self.metadata }
    }

    fn response_item(&self) -> (item: &ResponseItem) {
        &self.item
    }

    fn response_item_mut(&mut self) -> (item: &mut ResponseItem) {
        &mut self.item
    }

    fn from_response_item(item: ResponseItem) -> (entry: Self) {
        ResponseItemEnvelope::new(item)
    }
}

/// The models of the entries of a prompt copy.
pub open spec fn copy_views<T: PromptCopyItem>(items: Seq<T>) -> Seq<CopyView> {
    items.map_values(|t: T| t.copy_view())
}

/// The models of a copy with one more entry at the end.
pub proof fn lemma_copy_views_push<T: PromptCopyItem>(items: Seq<T>, entry: T)
    ensures
        copy_views(items.push(entry)) == copy_views(items).push(entry.copy_view()),
{
    assert(copy_views(items.push(entry)) =~= copy_views(items).push(entry.copy_view()));
}

/// The models of two copies joined.
pub proof fn lemma_copy_views_add<T: PromptCopyItem>(a: Seq<T>, b: Seq<T>)
    ensures
        copy_views(a + b) == copy_views(a) + copy_views(b),
{
    assert(copy_views(a + b) =~= copy_views(a) + copy_views(b));
}

/// The models of a part of a copy.
pub proof fn lemma_copy_views_subrange<T: PromptCopyItem>(items: Seq<T>, lo: int, hi: int)
    requires
        0 <= lo <= hi <= items.len(),
    ensures
        copy_views(items.subrange(lo, hi)) == copy_views(items).subrange(lo, hi),
{
    assert(copy_views(items.subrange(lo, hi)) =~= copy_views(items).subrange(lo, hi));
}

/// The models of a copy with an entry inserted.
pub proof fn lemma_copy_views_insert<T: PromptCopyItem>(items: Seq<T>, pos: int, entry: T)
    requires
        0 <= pos <= items.len(),
    ensures
        copy_views(items.insert(pos, entry)) == copy_views(items).insert(pos, entry.copy_view()),
{
    items.insert_ensures(pos, entry);
    copy_views(items).insert_ensures(pos, entry.copy_view());
    assert(copy_views(items.insert(pos, entry)) =~= copy_views(items).insert(
        pos,
        entry.copy_view(),
    ));
}

} // verus!
