//! The last background pictures loaded, resized, kept for the next requests.
use vstd::prelude::*;
use crate::canvas::{resize_triangle, triangle_resize, RgbaCanvas};

verus! {

/// How many pictures the cache keeps.
pub const CACHE_CAPACITY: usize = 3;

/// Whether two modification times, each after (`true`) or before the Unix epoch by
/// seconds and nanoseconds, are the same.
fn equal_times(a: Option<(bool, u64, u32)>, b: Option<(bool, u64, u32)>) -> (r: bool)
    ensures
        r == (a == b),
{
    match (a, b) {
        (Some(x), Some(y)) => x.0 == y.0 && x.1 == y.1 && x.2 == y.2,
        (None, None) => true,
        _ => false,
    }
}

/// A picture as it was loaded from `path`, modified at `modified`, resized to
/// `width` by `height`.
pub struct CachedBackground {
    pub path: String,
    pub modified: Option<(bool, u64, u32)>,
    pub width: u32,
    pub height: u32,
    pub image: RgbaCanvas,
}

impl CachedBackground {
    /// The picture has the size the entry says.
    pub open spec fn sized(&self) -> bool {
        &&& self.image.width == self.width
        &&& self.image.height == self.height
        &&& self.image.wf()
    }

    /// Whether this entry answers a request for `path` at `modified`, resized to
    /// `width` by `height`.
    pub open spec fn answers(
        &self,
        path: Seq<char>,
        modified: Option<(bool, u64, u32)>,
        width: u32,
        height: u32,
    ) -> bool {
        &&& self.path@ == path
        &&& self.width == width
        &&& self.height == height
        &&& self.modified == modified
    }
}

/// The index of the first entry from `i` on that answers the request; the length
/// where none does.
pub open spec fn first_answer(
    entries: Seq<CachedBackground>,
    path: Seq<char>,
    modified: Option<(bool, u64, u32)>,
    width: u32,
    height: u32,
    i: int,
) -> int
    decreases entries.len() - i,
{
    if i >= entries.len() {
        entries.len() as int
    } else if entries[i].answers(path, modified, width, height) {
        i
    } else {
        first_answer(entries, path, modified, width, height, i + 1)
    }
}

/// The entries after adding `entry`: the oldest leaves once the cache is full.
pub open spec fn inserted(entries: Seq<CachedBackground>, entry: CachedBackground) -> Seq<
    CachedBackground,
> {
    if entries.len() >= CACHE_CAPACITY {
        entries.subrange(1, entries.len() as int).push(entry)
    } else {
        entries.push(entry)
    }
}

/// Background pictures, oldest first.
pub struct BackgroundCache {
    entries: Vec<CachedBackground>,
}

impl BackgroundCache {
    /// Every picture kept has the size its entry says.
    #[verifier::type_invariant]
    spec fn entries_sized(&self) -> bool {
        forall|i: int| 0 <= i < self.entries@.len() ==> (#[trigger] self.entries@[i]).sized()
    }

    /// The entries, oldest first.
    pub closed spec fn entries(&self) -> Seq<CachedBackground> {
        self.entries@
    }

    /// An empty cache.
    pub fn new() -> (r: Self)
        ensures
            r.entries() == Seq::<CachedBackground>::empty(),
    {
        BackgroundCache { entries: Vec::new() }
    }

    /// How many pictures are kept.
    pub fn len(&self) -> (r: usize)
        ensures
            r == self.entries().len(),
    {
        self.entries.len()
    }

    /// A copy of the picture of the first entry that answers the request.
    pub fn find(&self, path: &String, modified: Option<(bool, u64, u32)>, width: u32, height: u32) -> (r:
        Option<RgbaCanvas>)
        ensures
            ({
                let k = first_answer(self.entries(), path@, modified, width, height, 0);
                if k < self.entries().len() {
                    r matches Some(img) && img.width == width && img.height == height
                        && img.wf() && img.pixels@ == self.entries()[k].image.pixels@
                } else {
                    r is None
                }
            }),
    {
        proof {
            use_type_invariant(self);
        }
        let mut i: usize = 0;
        while i < self.entries.len()
            invariant
                i <= self.entries@.len(),
                forall|j: int| 0 <= j < self.entries@.len() ==> (#[trigger] self.entries@[j]).sized(),
                first_answer(self.entries@, path@, modified, width, height, 0) == first_answer(
                    self.entries@,
                    path@,
                    modified,
                    width,
                    height,
                    i as int,
                ),
            decreases self.entries@.len() - i,
        {
            let e = &self.entries[i];
            if e.path == *path && e.width == width && e.height == height && equal_times(
                e.modified,
                modified,
            ) {
                return Some(e.image.copy());
            }
            i += 1;
        }
        None
    }

    /// Adds an entry whose picture has the size it says; the oldest leaves first
    /// when the cache is full.
    pub fn insert(&mut self, entry: CachedBackground)
        requires
            entry.sized(),
        ensures
            final(self).entries() == inserted(old(self).entries(), entry),
    {
        proof {
            use_type_invariant(&*self);
        }
        let mut entries: Vec<CachedBackground> = Vec::new();
        std::mem::swap(&mut entries, &mut self.entries);
        if entries.len() >= CACHE_CAPACITY {
            entries.remove(0);
        }
        entries.push(entry);
        assert(entries@ =~= inserted(old(self).entries(), entry));
        self.entries = entries;
    }

    /// Resizes a freshly loaded picture to `width` by `height`, keeps the result
    /// for the next requests for `path` at `modified`, and returns it.
    pub fn store(
        &mut self,
        path: &String,
        modified: Option<(bool, u64, u32)>,
        width: u32,
        height: u32,
        decoded: &RgbaCanvas,
    ) -> (r: RgbaCanvas)
        requires
            decoded.wf(),
            width * height * 4 <= usize::MAX,
        ensures
            r.width == width,
            r.height == height,
            r.wf(),
            r.pixels@ == triangle_resize(
                decoded.width,
                decoded.height,
                decoded.pixels@,
                width,
                height,
            ),
            final(self).entries() == inserted(old(self).entries(), final(self).entries().last()),
            final(self).entries().last().answers(path@, modified, width, height),
            final(self).entries().last().image.width == width,
            final(self).entries().last().image.height == height,
            final(self).entries().last().image.pixels@ == r.pixels@,
    {
        let resized = resize_triangle(decoded, width, height);
        let entry = CachedBackground {
            path: path.clone(),
            modified,
            width,
            height,
            image: resized.copy(),
        };
        self.insert(entry);
        resized
    }
}

/// A cache that held at most three pictures still does after an insertion.
pub proof fn lemma_insert_keeps_capacity(entries: Seq<CachedBackground>, entry: CachedBackground)
    requires
        entries.len() <= CACHE_CAPACITY,
    ensures
        inserted(entries, entry).len() <= CACHE_CAPACITY,
{
}

proof fn lemma_first_answer_last(
    s: Seq<CachedBackground>,
    path: Seq<char>,
    modified: Option<(bool, u64, u32)>,
    width: u32,
    height: u32,
    i: int,
)
    requires
        0 <= i < s.len(),
        s.last().answers(path, modified, width, height),
        forall|j: int| i <= j < s.len() - 1 ==> !(#[trigger] s[j]).answers(path, modified, width, height),
    ensures
        first_answer(s, path, modified, width, height, i) == s.len() - 1,
    decreases s.len() - i,
{
    if i < s.len() - 1 {
        lemma_first_answer_last(s, path, modified, width, height, i + 1);
    }
}

proof fn lemma_first_answer_none(
    s: Seq<CachedBackground>,
    path: Seq<char>,
    modified: Option<(bool, u64, u32)>,
    width: u32,
    height: u32,
    i: int,
    j: int,
)
    requires
        0 <= i <= j < s.len(),
        first_answer(s, path, modified, width, height, i) == s.len(),
    ensures
        !s[j].answers(path, modified, width, height),
    decreases j - i,
{
    if i < j {
        lemma_first_answer_none(s, path, modified, width, height, i + 1, j);
    }
}

/// A request that found nothing finds, after its picture was inserted, that
/// picture.
pub proof fn lemma_find_after_insert(
    entries: Seq<CachedBackground>,
    entry: CachedBackground,
    path: Seq<char>,
    modified: Option<(bool, u64, u32)>,
    width: u32,
    height: u32,
)
    requires
        first_answer(entries, path, modified, width, height, 0) == entries.len(),
        entry.answers(path, modified, width, height),
    ensures
        first_answer(inserted(entries, entry), path, modified, width, height, 0) == inserted(
            entries,
            entry,
        ).len() - 1,
        inserted(entries, entry).last() == entry,
{
    let s = inserted(entries, entry);
    assert forall|j: int| 0 <= j < s.len() - 1 implies !(#[trigger] s[j]).answers(
        path,
        modified,
        width,
        height,
    ) by {
        if entries.len() >= CACHE_CAPACITY {
            lemma_first_answer_none(entries, path, modified, width, height, 0, j + 1);
        } else {
            lemma_first_answer_none(entries, path, modified, width, height, 0, j);
        }
    }
    lemma_first_answer_last(s, path, modified, width, height, 0);
}

} // verus!
