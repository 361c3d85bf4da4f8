use vstd::prelude::*;

verus! {

/// A lifecycle event of the cache: the paths that were loaded, reloaded
/// in place, or removed by one operation of the registry.
#[derive(Debug, Clone, PartialEq, Eq)]
pub enum AssetEvent {
    Loaded(Vec<String>),
    Reloaded(Vec<String>),
    Removed(Vec<String>),
}

/// The mathematical value of an `AssetEvent`: the same three cases over
/// sequences of character sequences.
pub enum EventView {
    Loaded(Seq<Seq<char>>),
    Reloaded(Seq<Seq<char>>),
    Removed(Seq<Seq<char>>),
}

impl View for AssetEvent {
    type V = EventView;

    open spec fn view(&self) -> EventView {
        match self {
            AssetEvent::Loaded(paths) => EventView::Loaded(paths.deep_view()),
            AssetEvent::Reloaded(paths) => EventView::Reloaded(paths.deep_view()),
            AssetEvent::Removed(paths) => EventView::Removed(paths.deep_view()),
        }
    }
}

impl DeepView for AssetEvent {
    type V = EventView;

    open spec fn deep_view(&self) -> EventView {
        self.view()
    }
}

} // verus!
