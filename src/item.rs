use vstd::prelude::*;

verus! {

/// Opaque handle of one remote item.
#[derive(Clone, Copy, Debug, PartialEq, Eq, Hash, Structural)]
pub struct ItemId(pub usize);

/// A resolved remote item: a story, comment, job, poll or poll option.
///
/// Fields that the remote payload leaves out hold their type's default
/// (empty text, zero, an empty list); `time` is seconds since the Unix epoch.
#[derive(Clone, Debug)]
pub struct Item {
    pub id: ItemId,
    pub deleted: bool,
    pub kind: String,
    pub by: String,
    pub time: i64,
    pub text: String,
    pub dead: bool,
    pub parent: ItemId,
    pub poll: ItemId,
    pub kids: Vec<ItemId>,
    pub url: Option<String>,
    pub score: usize,
    pub title: String,
    pub parts: Vec<ItemId>,
    pub descendants: usize,
}

impl Item {
    /// The item `id` created at `time`, with every other field at its
    /// default: what a payload that gives nothing else decodes to.
    pub fn blank(id: ItemId, time: i64) -> (r: Item)
        ensures
            r.id == id,
            r.time == time,
            !r.deleted && !r.dead,
            r.kind@.len() == 0 && r.by@.len() == 0 && r.text@.len() == 0 && r.title@.len() == 0,
            r.parent == ItemId(0) && r.poll == ItemId(0),
            r.kids@.len() == 0 && r.parts@.len() == 0,
            r.url is None,
            r.score == 0 && r.descendants == 0,
    {
        Item {
            id,
            deleted: false,
            kind: String::new(),
            by: String::new(),
            time,
            text: String::new(),
            dead: false,
            parent: ItemId(0),
            poll: ItemId(0),
            kids: Vec::new(),
            url: None,
            score: 0,
            title: String::new(),
            parts: Vec::new(),
            descendants: 0,
        }
    }
}

/// Why fetching an item did not yield one.
#[derive(Clone, Debug)]
pub enum FetchError {
    /// The transport failed.
    Network(String),
    /// The payload was not a well-formed item.
    Decode(String),
    /// The remote API knows no item under this id.
    Missing,
}

} // verus!
