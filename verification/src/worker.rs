//! The decisions of the page and thumbnail workers: which request wins,
//! which pages to read ahead, when two pages face each other, what the page
//! counter says, and the cache of decoded pages.

use crate::book::{Book, Entry};
use crate::spread::{fits, image_height, image_width, is_join, join, join_fits, picture_height, picture_width, Picture};
use crate::text::{decimal, push_decimal, push_signed, signed_decimal};
use std::sync::Arc;
use vstd::prelude::*;
use vstd::string::StringExecFns;

verus! {

/// Fallback cap on a page's longest edge; the quality setting replaces it.
pub const MAX_DIM: u32 = 2400;

/// Decoded pages held in memory.
pub const CACHE_PAGES: usize = 12;

/// The box a thumbnail is shrunk into, and the edge its page is decoded at.
pub const THUMB_W: u32 = 140;

pub const THUMB_H: u32 = 200;

pub const THUMB_EDGE: u32 = 480;

pub enum PageCmd {
    Open(Arc<Book>),
    Show { index: usize, spread: bool, rtl: bool, dark: bool },
    Quit,
}

pub enum ThumbCmd {
    Open(Arc<Book>),
    Quit,
}

/// What the reader has been asked to show.
#[derive(Clone, Copy, Debug, PartialEq, Eq, Structural)]
pub struct PageRequest {
    pub index: usize,
    pub spread: bool,
    pub rtl: bool,
    pub dark: bool,
}

/// What the page worker does about one command.
pub enum PageStep {
    /// Stop the worker.
    Stop,
    /// Drop the cache and open a reader for this book.
    Open(Arc<Book>),
    /// Nothing yet: the wanted page was noted.
    Noted,
}

/// The page wanted after one more command: a `Show` replaces it, opening a
/// book forgets it, and quitting leaves it be.
pub open spec fn wanted_after(wanted: Option<PageRequest>, cmd: PageCmd) -> Option<PageRequest> {
    match cmd {
        PageCmd::Quit => wanted,
        PageCmd::Open(_) => None,
        PageCmd::Show { index, spread, rtl, dark } => Some(PageRequest { index, spread, rtl, dark }),
    }
}

/// The page wanted after a batch of commands, taken in the order they came.
pub open spec fn wanted_after_batch(wanted: Option<PageRequest>, cmds: Seq<PageCmd>) -> Option<
    PageRequest,
>
    decreases cmds.len(),
{
    if cmds.len() == 0 {
        wanted
    } else {
        wanted_after_batch(wanted_after(wanted, cmds[0]), cmds.drop_first())
    }
}

/// Takes one queued command into account. Only the newest `Show` counts, and
/// opening a book forgets any page asked for before it.
pub fn page_step(wanted: &mut Option<PageRequest>, cmd: PageCmd) -> (r: PageStep)
    ensures
        *final(wanted) == wanted_after(*old(wanted), cmd),
        match cmd {
            PageCmd::Quit => r is Stop && *final(wanted) == *old(wanted),
            PageCmd::Open(b) => r == PageStep::Open(b) && *final(wanted) is None,
            PageCmd::Show { index, spread, rtl, dark } => r is Noted && *final(wanted) == Some(
                PageRequest { index, spread, rtl, dark },
            ),
        },
{
    match cmd {
        PageCmd::Quit => PageStep::Stop,
        PageCmd::Open(b) => {
            *wanted = None;
            PageStep::Open(b)
        },
        PageCmd::Show { index, spread, rtl, dark } => {
            *wanted = Some(PageRequest { index, spread, rtl, dark });
            PageStep::Noted
        },
    }
}

/// Of a burst of requests only the newest is shown: whatever the batch held
/// before, a batch that ends in a `Show` leaves exactly that page wanted.
pub proof fn newest_request_wins(
    wanted: Option<PageRequest>,
    cmds: Seq<PageCmd>,
    index: usize,
    spread: bool,
    rtl: bool,
    dark: bool,
)
    requires
        cmds.len() > 0,
        cmds.last() == (PageCmd::Show { index, spread, rtl, dark }),
    ensures
        wanted_after_batch(wanted, cmds) == Some(PageRequest { index, spread, rtl, dark }),
    decreases cmds.len(),
{
    if cmds.len() > 1 {
        assert(cmds.drop_first().last() == cmds.last());
        newest_request_wins(wanted_after(wanted, cmds[0]), cmds.drop_first(), index, spread, rtl, dark);
    } else {
        assert(cmds[0] == cmds.last());
        assert(wanted_after_batch(wanted_after(wanted, cmds[0]), cmds.drop_first()) == wanted_after(
            wanted,
            cmds[0],
        ));
    }
}

/// A book opened after the last request leaves nothing to show until a new
/// request comes.
pub proof fn opening_forgets_requests(wanted: Option<PageRequest>, cmds: Seq<PageCmd>, b: Arc<Book>)
    requires
        cmds.len() > 0,
        cmds.last() == PageCmd::Open(b),
    ensures
        wanted_after_batch(wanted, cmds) is None,
    decreases cmds.len(),
{
    if cmds.len() > 1 {
        assert(cmds.drop_first().last() == cmds.last());
        opening_forgets_requests(wanted_after(wanted, cmds[0]), cmds.drop_first(), b);
    } else {
        assert(cmds[0] == cmds.last());
        assert(wanted_after_batch(wanted_after(wanted, cmds[0]), cmds.drop_first()) == wanted_after(
            wanted,
            cmds[0],
        ));
    }
}

/// The page a batch leaves wanted, read from its end: the last `Show`, unless
/// an `Open` comes after it, which leaves nothing; `Quit`s are passed over;
/// with neither, what was wanted before.
pub open spec fn last_request(wanted: Option<PageRequest>, cmds: Seq<PageCmd>) -> Option<PageRequest>
    decreases cmds.len(),
{
    if cmds.len() == 0 {
        wanted
    } else {
        match cmds.last() {
            PageCmd::Show { index, spread, rtl, dark } => Some(PageRequest { index, spread, rtl, dark }),
            PageCmd::Open(_) => None,
            PageCmd::Quit => last_request(wanted, cmds.drop_last()),
        }
    }
}

proof fn lemma_batch_push(wanted: Option<PageRequest>, cmds: Seq<PageCmd>, cmd: PageCmd)
    ensures
        wanted_after_batch(wanted, cmds.push(cmd)) == wanted_after(wanted_after_batch(wanted, cmds), cmd),
    decreases cmds.len(),
{
    if cmds.len() == 0 {
        let one = cmds.push(cmd);
        assert(one[0] == cmd);
        assert(one.drop_first().len() == 0);
        assert(wanted_after_batch(wanted_after(wanted, cmd), one.drop_first()) == wanted_after(
            wanted,
            cmd,
        ));
        assert(wanted_after_batch(wanted, cmds) == wanted);
    } else {
        assert(cmds.push(cmd)[0] == cmds[0]);
        assert(cmds.push(cmd).drop_first() =~= cmds.drop_first().push(cmd));
        lemma_batch_push(wanted_after(wanted, cmds[0]), cmds.drop_first(), cmd);
    }
}

/// The page worker's batch rule in one place: taking a batch of commands in
/// order, one `page_step` at a time, leaves wanted exactly the last `Show`
/// after the last `Open` (nothing when an `Open` comes last, earlier `Show`s
/// dropped), and what was wanted before when the batch holds neither.
pub proof fn batch_leaves_last_request(wanted: Option<PageRequest>, cmds: Seq<PageCmd>)
    ensures
        wanted_after_batch(wanted, cmds) == last_request(wanted, cmds),
    decreases cmds.len(),
{
    if cmds.len() > 0 {
        let init = cmds.drop_last();
        assert(init.push(cmds.last()) =~= cmds);
        lemma_batch_push(wanted, init, cmds.last());
        batch_leaves_last_request(wanted, init);
    }
}

/// A page is a candidate for reading ahead when it exists.
pub open spec fn ahead(i: int, len: usize) -> Option<usize> {
    if 0 <= i < len {
        Some(i as usize)
    } else {
        None
    }
}

/// The pages read ahead after showing `span` pages from `index`, in order: the
/// next three, then the one before. `None` marks one past the end, skipped.
pub fn read_ahead(index: usize, span: usize, len: usize) -> (r: Vec<Option<usize>>)
    requires
        index + span + 2 <= usize::MAX,
    ensures
        r@ == seq![
            ahead(index + span, len),
            ahead(index + span + 1, len),
            ahead(index + span + 2, len),
            ahead(if index == 0 { 0 } else { index - 1 }, len),
        ],
{
    let back = if index == 0 {
        0
    } else {
        index - 1
    };
    let mut r: Vec<Option<usize>> = Vec::new();
    r.push(if index + span < len { Some(index + span) } else { None });
    r.push(if index + span + 1 < len { Some(index + span + 1) } else { None });
    r.push(if index + span + 2 < len { Some(index + span + 2) } else { None });
    r.push(if back < len { Some(back) } else { None });
    r
}

/// The cover stays on its own, and so does the last page; a page is paired
/// with the next only in spread mode and when it is taller than wide.
pub open spec fn seeks_partner(view: PageRequest, len: usize, w: u32, h: u32) -> bool {
    view.spread && view.index > 0 && view.index + 1 < len && h > w
}

/// In spread mode every portrait page after the cover that has a page after
/// it seeks a partner, whether its index is odd or even (a book jumped into
/// from the rail, or shifted by a lone splash page, still pairs); the cover,
/// the last page, a landscape page, and any page outside spread mode stay
/// alone.
pub proof fn every_inner_portrait_page_pairs(view: PageRequest, len: usize, w: u32, h: u32)
    ensures
        view.spread && view.index > 0 && view.index + 1 < len && h > w ==> seeks_partner(
            view,
            len,
            w,
            h,
        ),
        view.index == 0 ==> !seeks_partner(view, len, w, h),
        view.index + 1 >= len ==> !seeks_partner(view, len, w, h),
        h <= w ==> !seeks_partner(view, len, w, h),
        !view.spread ==> !seeks_partner(view, len, w, h),
        view.index > 0 && view.index + 2 < len ==> seeks_partner(view, len, w, h)
            == seeks_partner(PageRequest { index: (view.index + 1) as usize, ..view }, len, w, h),
{
}

pub fn wants_pair(view: PageRequest, len: usize, w: u32, h: u32) -> (r: bool)
    ensures
        r == seeks_partner(view, len, w, h),
        r <==> (view.spread && view.index > 0 && view.index + 1 < len && h > w),
{
    view.spread && view.index > 0 && view.index < len && view.index + 1 < len && h > w
}

/// A double-width splash page is already a spread: only a portrait page is
/// taken as the second of a pair.
pub fn portrait(w: u32, h: u32) -> (r: bool)
    ensures
        r == (h > w),
{
    h > w
}

/// The page counter: "3 of 20", or "3–4 of 20" when two pages show.
pub open spec fn label_text(index: nat, span: nat, total: i32) -> Seq<char> {
    if span > 1 {
        decimal(index + 1) + seq!['\u{2013}'] + decimal(index + span) + " of "@ + signed_decimal(total)
    } else {
        decimal(index + 1) + " of "@ + signed_decimal(total)
    }
}

pub fn page_label(index: usize, span: usize, total: i32) -> (r: String)
    requires
        index + span <= usize::MAX,
        index + 1 <= usize::MAX,
    ensures
        r@ == label_text(index as nat, span as nat, total),
{
    let mut s = String::new();
    push_decimal(&mut s, (index + 1) as u128);
    if span > 1 {
        crate::text::push_char(&mut s, '\u{2013}');
        push_decimal(&mut s, (index + span) as u128);
    }
    s.append(" of ");
    push_signed(&mut s, total);
    s
}

} // verus!

verus! {

/// The last pair drawn is remembered by (first page, right to left, dark).
pub type SpreadKey = (usize, bool, bool);

/// `Arc::clone`: another pointer to the same value.
#[verifier::external_body]
fn share<T>(a: &Arc<T>) -> (r: Arc<T>)
    ensures
        r == *a,
{
    Arc::clone(a)
}

/// The picture behind a shared pointer.
pub open spec fn shown(a: Arc<Picture>) -> Picture {
    *a
}

/// `canvas` is the pair drawn for `key` from the page it starts on and the
/// next: side by side in reading order (the next page on the left when reading
/// right to left), on the field colour the key's dark flag picks.
pub open spec fn pair_drawn(key: SpreadKey, first: Picture, second: Picture, canvas: Picture) -> bool {
    if key.1 {
        is_join(second, first, key.2, canvas)
    } else {
        is_join(first, second, key.2, canvas)
    }
}

/// Decoded pages held in memory, dropped oldest first past `limit`, plus the
/// last pair of facing pages drawn.
pub struct Cache {
    spread: Option<(SpreadKey, Arc<Picture>)>,
    /// The two pages (first, then the one after it) the remembered pair was
    /// joined from.
    drawn: Ghost<Option<(Picture, Picture)>>,
    map: std::collections::HashMap<usize, Arc<Picture>>,
    order: std::collections::VecDeque<usize>,
    limit: usize,
    cap: u32,
}

/// Why a page could not be had from the cache.
#[derive(Debug)]
pub enum CacheError<E> {
    /// The book has no page with that number.
    NoSuchPage,
    /// Loading the page failed.
    Load(E),
}

impl<E> CacheError<E> {
    pub fn message(&self) -> (r: Option<String>)
        ensures
            self is NoSuchPage ==> (r matches Some(m) && m@ == "no such page"@),
            self is Load ==> r is None,
    {
        match self {
            CacheError::NoSuchPage => Some(String::from_str("no such page")),
            CacheError::Load(_) => None,
        }
    }
}

impl Cache {
    /// Every cached page is in the eviction order exactly once, and there are
    /// never more than `limit` of them.
    pub closed spec fn well_formed(self) -> bool {
        &&& forall|k: usize|
            #![trigger self.map@.contains_key(k)]
            #![trigger self.order@.contains(k)]
            self.map@.contains_key(k) <==> self.order@.contains(k)
        &&& forall|i: int, j: int|
            0 <= i < j < self.order@.len() ==> self.order@[i] != self.order@[j]
        &&& self.order@.len() <= self.limit
        &&& match self.spread {
            Some(kv) => match self.drawn@ {
                Some(pq) => pair_drawn(kv.0, pq.0, pq.1, *kv.1),
                None => false,
            },
            None => true,
        }
    }

    /// The pages the remembered pair was joined from: the page it starts on,
    /// then the next.
    pub closed spec fn drawn_from(self) -> Option<(Picture, Picture)> {
        self.drawn@
    }

    /// The cached pages.
    pub closed spec fn pages(self) -> Map<usize, Arc<Picture>> {
        self.map@
    }

    /// Page numbers, oldest first.
    pub closed spec fn age_order(self) -> Seq<usize> {
        self.order@
    }

    pub closed spec fn capacity(self) -> usize {
        self.limit
    }

    /// The longest edge pages are decoded at.
    pub closed spec fn edge(self) -> u32 {
        self.cap
    }

    pub closed spec fn last_spread(self) -> Option<(SpreadKey, Arc<Picture>)> {
        self.spread
    }

    pub fn new(limit: usize, cap: u32) -> (c: Cache)
        ensures
            c.well_formed(),
            c.pages() == Map::<usize, Arc<Picture>>::empty(),
            c.age_order() == Seq::<usize>::empty(),
            c.capacity() == limit,
            c.edge() == cap,
            c.last_spread() is None,
    {
        Cache {
            spread: None,
            drawn: Ghost(None),
            map: std::collections::HashMap::new(),
            order: std::collections::VecDeque::new(),
            limit,
            cap,
        }
    }

    /// The pair drawn for `key`, if it is the one remembered.
    pub fn spread_for(&self, key: SpreadKey) -> (r: Option<Arc<Picture>>)
        ensures
            match self.last_spread() {
                Some(kv) => if kv.0 == key {
                    r == Some(kv.1)
                } else {
                    r is None
                },
                None => r is None,
            },
    {
        match &self.spread {
            Some((k, img)) => {
                if k.0 == key.0 && k.1 == key.1 && k.2 == key.2 {
                    Some(share(img))
                } else {
                    None
                }
            },
            None => None,
        }
    }

    /// Remembers the pair drawn for `key` from `first` and `second`.
    fn keep_spread(
        &mut self,
        key: SpreadKey,
        img: Arc<Picture>,
        Ghost(first): Ghost<Picture>,
        Ghost(second): Ghost<Picture>,
    )
        requires
            old(self).well_formed(),
            pair_drawn(key, first, second, *img),
        ensures
            final(self).well_formed(),
            final(self).last_spread() == Some((key, img)),
            final(self).drawn_from() == Some((first, second)),
            final(self).pages() == old(self).pages(),
            final(self).age_order() == old(self).age_order(),
            final(self).capacity() == old(self).capacity(),
            final(self).edge() == old(self).edge(),
    {
        self.spread = Some((key, img));
        self.drawn = Ghost(Some((first, second)));
    }

    /// Forgets every page and the remembered pair.
    pub fn clear(&mut self)
        requires
            old(self).well_formed(),
        ensures
            final(self).well_formed(),
            final(self).last_spread() is None,
            final(self).pages() == Map::<usize, Arc<Picture>>::empty(),
            final(self).age_order() == Seq::<usize>::empty(),
            final(self).capacity() == old(self).capacity(),
            final(self).edge() == old(self).edge(),
    {
        self.spread = None;
        self.drawn = Ghost(None);
        self.map.clear();
        self.order.clear();
    }
}

} // verus!

verus! {

/// `p` is page `index` as `get` hands it out: the copy cached in `pages`, or
/// what `load` made of the page's entry at the cache's edge length.
pub open spec fn got_page<E, F: Fn(&Entry, u32) -> Result<Picture, E>>(
    pages: Map<usize, Arc<Picture>>,
    entries: Seq<Entry>,
    edge: u32,
    load: F,
    index: usize,
    p: Arc<Picture>,
) -> bool {
    ||| pages.contains_key(index) && p == pages[index]
    ||| index < entries.len() && load.ensures((&entries[index as int], edge), Ok(*p))
}

impl Cache {
    /// The page at `index`: the cached copy, or else loaded with `load` (at the
    /// cache's edge length), kept, and the oldest page dropped past the limit.
    #[verifier::spinoff_prover]
    #[verifier::rlimit(50)]
    pub fn get<E, F: Fn(&Entry, u32) -> Result<Picture, E>>(
        &mut self,
        book: &Book,
        index: usize,
        load: &F,
    ) -> (r: Result<Arc<Picture>, CacheError<E>>)
        requires
            old(self).well_formed(),
            index < book.entries@.len() ==> load.requires((&book.entries@[index as int], old(self).edge())),
        ensures
            final(self).well_formed(),
            final(self).capacity() == old(self).capacity(),
            final(self).edge() == old(self).edge(),
            final(self).last_spread() == old(self).last_spread(),
            final(self).drawn_from() == old(self).drawn_from(),
            old(self).pages().contains_key(index) ==> (r == Ok::<Arc<Picture>, CacheError<E>>(old(self).pages()[index])
                && final(self).pages() == old(self).pages() && final(self).age_order() == old(
                self,
            ).age_order()),
            !old(self).pages().contains_key(index) && index >= book.entries@.len() ==> (r matches Err(
                CacheError::NoSuchPage,
            ) && final(self).pages() == old(self).pages() && final(self).age_order() == old(
                self,
            ).age_order()),
            !old(self).pages().contains_key(index) && index < book.entries@.len() && r is Ok
                ==> final(self).age_order() == evicted_order(
                old(self).age_order(),
                index,
                old(self).capacity(),
            ),
            !old(self).pages().contains_key(index) && index < book.entries@.len() && r is Ok ==> ({
                let page = r->Ok_0;
                &&& load.ensures((&book.entries@[index as int], old(self).edge()), Ok(*page))
                &&& old(self).capacity() > 0 ==> final(self).pages() == survivors(
                    old(self).pages(),
                    old(self).age_order(),
                    index,
                    old(self).capacity(),
                ).insert(index, page)
                &&& old(self).capacity() == 0 ==> final(self).pages() == old(self).pages()
            }),
            !old(self).pages().contains_key(index) && index < book.entries@.len() && r is Err ==> (r matches Err(CacheError::Load(e)) && load.ensures(
                (&book.entries@[index as int], old(self).edge()),
                Err(e),
            ) && final(self).pages() == old(self).pages() && final(self).age_order() == old(
                self,
            ).age_order()),
            r matches Ok(p) ==> got_page(old(self).pages(), book.entries@, old(self).edge(), *load, index, p),
    {
        if let Some(hit) = self.map.get(&index) {
            return Ok(share(hit));
        }
        if index >= book.entries.len() {
            return Err(CacheError::NoSuchPage);
        }
        let entry = &book.entries[index];
        let ghost edge = self.cap;
        let outcome = load(entry, self.cap);
        assert(load.ensures((&book.entries@[index as int], edge), outcome));
        let page = match outcome {
            Ok(p) => Arc::new(p),
            Err(e) => {
                assert(load.ensures((&book.entries@[index as int], old(self).edge()), Err(e)));
                assert(self.map@ == old(self).map@);
                return Err(CacheError::Load(e));
            },
        };
        let ghost loaded = page;
        let out = share(&page);
        let ghost old_order = self.order@;
        let ghost old_map = self.map@;
        self.map.insert(index, page);
        self.order.push_back(index);
        proof {
            assert(self.order@ == old_order.push(index));
            assert(!old_order.contains(index));
        }
        while self.order.len() > self.limit
            invariant
                self.limit == old(self).limit,
                self.cap == old(self).cap,
                self.spread == old(self).spread,
                self.drawn == old(self).drawn,
                old_order.len() <= self.limit,
                !old_order.contains(index),
                forall|i: int, j: int| 0 <= i < j < old_order.len() ==> old_order[i] != old_order[j],
                forall|k: usize|
                    #![trigger old_map.contains_key(k)]
                    #![trigger old_order.contains(k)]
                    old_map.contains_key(k) <==> old_order.contains(k),
                (self.order@ == old_order.push(index) && self.map@ == old_map.insert(index, loaded))
                    || (self.order@ == old_order.push(index).drop_first() && self.map@ == old_map.insert(
                    index,
                    loaded,
                ).remove(old_order.push(index)[0]) && self.order@.len() <= self.limit && old_order.len() + 1
                    > self.limit),
            decreases self.order@.len(),
        {
            if let Some(old) = self.order.pop_front() {
                self.map.remove(&old);
                proof {
                    assert(self.order@ =~= old_order.push(index).drop_first());
                }
            }
        }
        proof {
            let pushed = old_order.push(index);
            assert forall|i: int, j: int| 0 <= i < j < pushed.len() implies pushed[i] != pushed[j] by {
                if j == pushed.len() - 1 {
                    assert(old_order.contains(pushed[i]) || pushed[i] != index);
                }
            }
            if self.order@ == pushed.drop_first() {
                assert forall|k: usize| self.map@.contains_key(k) <==> self.order@.contains(k) by {
                    if self.order@.contains(k) {
                        let i = choose|i: int| 0 <= i < self.order@.len() && self.order@[i] == k;
                        assert(pushed[i + 1] == k);
                        if k == pushed[0] {
                            assert(false);
                        }
                    }
                    if self.map@.contains_key(k) {
                        if k != index {
                            assert(old_order.contains(k));
                            let i = choose|i: int| 0 <= i < old_order.len() && old_order[i] == k;
                            assert(pushed[i] == k);
                            assert(i != 0);
                            assert(self.order@[i - 1] == k);
                        } else {
                            assert(self.order@[pushed.len() - 2] == k);
                        }
                    }
                }
            } else {
                assert forall|k: usize| self.map@.contains_key(k) <==> self.order@.contains(k) by {
                    if k == index {
                        assert(self.order@[old_order.len() as int] == k);
                    } else if old_map.contains_key(k) {
                        let i = choose|i: int| 0 <= i < old_order.len() && old_order[i] == k;
                        assert(self.order@[i] == k);
                    } else if self.order@.contains(k) {
                        let i = choose|i: int| 0 <= i < self.order@.len() && self.order@[i] == k;
                        assert(old_order[i] == k);
                    }
                }
            }
            assert(self.order@ == evicted_order(old_order, index, self.limit));
            if self.limit > 0 {
                assert(self.map@.contains_key(index));
                assert(self.map@[index] == loaded);
                assert(self.map@ =~= survivors(old_map, old_order, index, self.limit).insert(index, loaded));
            } else {
                assert(old_order.len() == 0);
                assert(self.map@ =~= old_map);
            }
        }
        Ok(out)
    }
}

/// Page numbers oldest first after `index` is added: past the limit the
/// oldest one goes.
pub open spec fn evicted_order(order: Seq<usize>, index: usize, limit: usize) -> Seq<usize> {
    if order.len() + 1 > limit {
        order.push(index).drop_first()
    } else {
        order.push(index)
    }
}

/// The cached pages that stay when `index` is added: all of them, or all but
/// the oldest when the cache is full.
pub open spec fn survivors<T>(pages: Map<usize, T>, order: Seq<usize>, index: usize, limit: usize) -> Map<
    usize,
    T,
> {
    if order.len() + 1 > limit && order.len() > 0 {
        pages.remove(order[0])
    } else {
        pages
    }
}

} // verus!

verus! {

/// The pair remembered for `key`, if the one remembered is for `key`.
pub open spec fn remembered<T>(last: Option<(SpreadKey, Arc<T>)>, key: SpreadKey) -> Option<Arc<T>> {
    match last {
        Some(kv) => if kv.0 == key {
            Some(kv.1)
        } else {
            None
        },
        None => None,
    }
}

/// Cached pages stay what they were when another page is added: what was
/// cached after a `get` was cached before, or is the page just added.
proof fn lemma_kept_pages<T>(
    before: Map<usize, Arc<T>>,
    order: Seq<usize>,
    index: usize,
    limit: usize,
    p: Arc<T>,
    other: usize,
)
    requires
        other != index,
        survivors(before, order, index, limit).insert(index, p).contains_key(other),
    ensures
        before.contains_key(other),
        survivors(before, order, index, limit).insert(index, p)[other] == before[other],
{
}

/// The page at `view.index` on its own, or it and the next side by side when
/// the request is for facing pages and both are portrait. The pair is drawn in
/// reading order (the next page on the left when reading right to left) and
/// kept, so asking for it again costs nothing; a kept pair is always the join
/// of the two pages it was drawn from. Gives the canvas and how many pages it
/// holds; fails only when the first page cannot be had.
#[verifier::spinoff_prover]
#[verifier::rlimit(50)]
pub fn render<E, F: Fn(&Entry, u32) -> Result<Picture, E>>(
    cache: &mut Cache,
    book: &Book,
    view: PageRequest,
    load: &F,
) -> (r: Result<(Arc<Picture>, usize), CacheError<E>>)
    requires
        old(cache).well_formed(),
        forall|e: &Entry, c: u32| #[trigger] load.requires((e, c)),
    ensures
        final(cache).well_formed(),
        final(cache).capacity() == old(cache).capacity(),
        final(cache).edge() == old(cache).edge(),
        r is Err ==> !old(cache).pages().contains_key(view.index),
        r is Err && view.index >= book.entries@.len() ==> r matches Err(CacheError::NoSuchPage),
        r is Err && view.index < book.entries@.len() ==> (r matches Err(CacheError::Load(e))
            && load.ensures((&book.entries@[view.index as int], old(cache).edge()), Err(e))),
        r matches Ok((canvas, span)) ==> exists|first: Arc<Picture>|
            #[trigger] got_page(
                old(cache).pages(),
                book.entries@,
                old(cache).edge(),
                *load,
                view.index,
                first,
            ) && {
                &&& span == 1 || span == 2
                &&& span == 1 ==> canvas == first && final(cache).last_spread() == old(
                    cache,
                ).last_spread()
                &&& !seeks_partner(
                    view,
                    book.entries@.len() as usize,
                    picture_width(*first),
                    picture_height(*first),
                ) ==> span == 1
                &&& span == 1 && seeks_partner(
                    view,
                    book.entries@.len() as usize,
                    picture_width(*first),
                    picture_height(*first),
                ) ==> {
                    ||| exists|e: E|
                        #[trigger] load.ensures(
                            (&book.entries@[view.index + 1], old(cache).edge()),
                            Err(e),
                        )
                    ||| exists|second: Arc<Picture>|
                        #[trigger] got_page(
                            old(cache).pages(),
                            book.entries@,
                            old(cache).edge(),
                            *load,
                            (view.index + 1) as usize,
                            second,
                        ) && (picture_height(*second) <= picture_width(*second) || (remembered(
                            old(cache).last_spread(),
                            (view.index, view.rtl, view.dark),
                        ) is None && !(if view.rtl {
                            fits(*second, *first)
                        } else {
                            fits(*first, *second)
                        })))
                }
                &&& span == 2 ==> {
                    &&& seeks_partner(
                        view,
                        book.entries@.len() as usize,
                        picture_width(*first),
                        picture_height(*first),
                    )
                    &&& final(cache).last_spread() == Some(
                        ((view.index, view.rtl, view.dark), canvas),
                    )
                    &&& exists|second: Arc<Picture>|
                        #[trigger] got_page(
                            old(cache).pages(),
                            book.entries@,
                            old(cache).edge(),
                            *load,
                            (view.index + 1) as usize,
                            second,
                        ) && picture_height(*second) > picture_width(*second) && match remembered(
                            old(cache).last_spread(),
                            (view.index, view.rtl, view.dark),
                        ) {
                            Some(ready) => canvas == ready && match old(cache).drawn_from() {
                                Some(pq) => pair_drawn(
                                    (view.index, view.rtl, view.dark),
                                    pq.0,
                                    pq.1,
                                    *canvas,
                                ),
                                None => false,
                            },
                            None => pair_drawn(
                                (view.index, view.rtl, view.dark),
                                *first,
                                *second,
                                *canvas,
                            ) && final(cache).drawn_from() == Some((*first, *second)),
                        }
                }
            },
{
    let ghost before = cache.pages();
    let ghost order = cache.age_order();
    let ghost edge = cache.edge();
    let ghost len = book.entries@.len();
    let first = match cache.get(book, view.index, load) {
        Ok(img) => img,
        Err(e) => return Err(e),
    };
    assert(got_page(before, book.entries@, edge, *load, view.index, first));
    let w = image_width(&first);
    let h = image_height(&first);
    if !wants_pair(view, book.entries.len(), w, h) {
        return Ok((first, 1));
    }
    let ghost middle = cache.pages();
    let next = match cache.get(book, view.index + 1, load) {
        Ok(img) => img,
        Err(err) => {
            proof {
                if let CacheError::Load(e) = err {
                    assert(load.ensures((&book.entries@[view.index + 1], edge), Err(e)));
                }
            }
            return Ok((first, 1));
        },
    };
    proof {
        let i1 = (view.index + 1) as usize;
        if middle.contains_key(i1) && next == middle[i1] {
            if !before.contains_key(view.index) && cache.capacity() > 0 {
                lemma_kept_pages(before, order, view.index, cache.capacity(), first, i1);
            }
        }
        assert(got_page(before, book.entries@, edge, *load, i1, next));
    }
    if !portrait(image_width(&next), image_height(&next)) {
        return Ok((first, 1));
    }
    let key: SpreadKey = (view.index, view.rtl, view.dark);
    match cache.spread_for(key) {
        Some(ready) => Ok((ready, 2)),
        None => {
            let (l, r) = if view.rtl {
                (&next, &first)
            } else {
                (&first, &next)
            };
            if !join_fits(l, r) {
                return Ok((first, 1));
            }
            let joined = Arc::new(join(l, r, view.dark));
            let ghost left_page: Picture = shown(first);
            let ghost right_page: Picture = shown(next);
            cache.keep_spread(key, share(&joined), Ghost(left_page), Ghost(right_page));
            Ok((joined, 2))
        },
    }
}

} // verus!

verus! {

/// A cache never holds more pages than it was made for, and its eviction
/// order names each cached page exactly once and nothing else.
pub proof fn cache_bounded(c: Cache)
    requires
        c.well_formed(),
    ensures
        forall|k: usize| #[trigger] c.pages().contains_key(k) <==> c.age_order().contains(k),
        c.pages().dom().finite(),
        c.pages().dom().len() == c.age_order().len(),
        c.pages().dom().len() <= c.capacity(),
        c.age_order().no_duplicates(),
{
    let order = c.age_order();
    assert(c.pages().dom() =~= order.to_set());
    order.unique_seq_to_set();
}

/// The remembered pair is always the join, in reading order, of the two pages
/// it was drawn from: the cache holds no other canvas.
pub proof fn remembered_pair_is_joined(c: Cache)
    requires
        c.well_formed(),
    ensures
        match c.last_spread() {
            Some(kv) => match c.drawn_from() {
                Some(pq) => pair_drawn(kv.0, pq.0, pq.1, *kv.1),
                None => false,
            },
            None => true,
        },
{
}

/// The status shown when a book's pages cannot be got at.
pub fn open_failure_status(error: &str) -> (r: String)
    ensures
        r@ == "Couldn't open that comic: "@ + error@,
{
    let mut s = String::from_str("Couldn't open that comic: ");
    s.append(error);
    s
}

/// The status shown when a page cannot be shown (pages counted from one).
pub fn page_failure_status(index: usize, error: &str) -> (r: String)
    ensures
        r@ == "Page "@ + decimal(index as nat + 1) + ": "@ + error@,
{
    let mut s = String::from_str("Page ");
    push_decimal(&mut s, index as u128 + 1);
    s.append(": ");
    s.append(error);
    s
}

} // verus!

verus! {

/// What the thumbnail worker hears before its next page.
pub enum Heard {
    /// Nothing new.
    Nothing,
    /// A newer command.
    Command(ThumbCmd),
    /// The channel is closed.
    Closed,
}

/// What the thumbnail worker does next.
pub enum ThumbTurn {
    Stop,
    /// Drop the rest of this book and take up the newer command.
    Preempt(ThumbCmd),
    /// Make the thumbnail of this page.
    Make(usize),
    /// Every page has had its turn.
    Done,
}

/// A newer command pre-empts the book and a closed channel stops the worker;
/// otherwise the pages come in order, one after another.
pub open spec fn turn_of(index: usize, len: usize, heard: Heard) -> ThumbTurn {
    match heard {
        Heard::Closed => ThumbTurn::Stop,
        Heard::Command(cmd) => ThumbTurn::Preempt(cmd),
        Heard::Nothing => if index < len {
            ThumbTurn::Make(index)
        } else {
            ThumbTurn::Done
        },
    }
}

pub fn thumb_turn(index: usize, len: usize, heard: Heard) -> (r: ThumbTurn)
    ensures
        r == turn_of(index, len, heard),
{
    match heard {
        Heard::Closed => ThumbTurn::Stop,
        Heard::Command(cmd) => ThumbTurn::Preempt(cmd),
        Heard::Nothing => if index < len {
            ThumbTurn::Make(index)
        } else {
            ThumbTurn::Done
        },
    }
}

/// The book a thumbnail command starts on, or `None` for `Quit`.
pub fn thumb_start(cmd: ThumbCmd) -> (r: Option<Arc<Book>>)
    ensures
        match cmd {
            ThumbCmd::Open(b) => r == Some(b),
            ThumbCmd::Quit => r is None,
        },
{
    match cmd {
        ThumbCmd::Open(b) => Some(b),
        ThumbCmd::Quit => None,
    }
}

/// Thumbnails come in page order until a newer command arrives: with nothing
/// heard, turn `i` makes page `i`, and the turn after the last page ends the
/// book; a newer command pre-empts whatever page is next.
pub proof fn thumbs_in_page_order(index: usize, len: usize, cmd: ThumbCmd)
    ensures
        index < len ==> turn_of(index, len, Heard::Nothing) == ThumbTurn::Make(index),
        index >= len ==> turn_of(index, len, Heard::Nothing) == ThumbTurn::Done,
        turn_of(index, len, Heard::Command(cmd)) == ThumbTurn::Preempt(cmd),
        turn_of(index, len, Heard::Closed) == ThumbTurn::Stop,
{
}

} // verus!
