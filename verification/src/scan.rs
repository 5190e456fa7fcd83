//! Workshop IDs found in Steam Community pages: search results and "Required items".

use crate::library::contains_str;
use crate::order::str_views;
use crate::text::{
    all_digits, chars_of, find, find_chars_from, find_from, is_numeric, lemma_find_from, numeric,
    push_str, str_eq, string_of,
};
use vstd::prelude::*;

verus! {

/// Number of ASCII digits in `s` from `start` on.
pub open spec fn digit_run(s: Seq<char>, start: int) -> nat
    decreases s.len() - start,
{
    if 0 <= start < s.len() && crate::text::is_digit(s[start]) {
        1 + digit_run(s, start + 1)
    } else {
        0
    }
}

pub proof fn lemma_digit_run_bound(s: Seq<char>, start: int)
    requires
        0 <= start <= s.len(),
    ensures
        start + digit_run(s, start) <= s.len(),
    decreases s.len() - start,
{
    if start < s.len() {
        lemma_digit_run_bound(s, start + 1);
    }
}

/// IDs after each `link` in `s` from `pos` on, each kept once, stopping when `limit` IDs are
/// found.
pub open spec fn scan_ids(
    s: Seq<char>,
    link: Seq<char>,
    pos: int,
    ids: Seq<Seq<char>>,
    limit: Option<nat>,
) -> Seq<Seq<char>>
    decreases s.len() + 1 - pos,
{
    let f = find_from(s, link, pos);
    if pos < 0 || f < pos || link.len() == 0 {
        ids
    } else {
        let start = f + link.len();
        let n = digit_run(s, start);
        let id = s.subrange(start, start + n);
        let pushed = n > 0 && !ids.contains(id);
        let next = if pushed {
            ids.push(id)
        } else {
            ids
        };
        if pushed && limit == Some(next.len()) {
            next
        } else {
            proof {
                lemma_find_from(s, link, pos);
                lemma_digit_run_bound(s, start);
            }
            scan_ids(s, link, start + n, next, limit)
        }
    }
}

/// A scan with a limit stops once it has that many IDs.
pub proof fn lemma_scan_limit(s: Seq<char>, link: Seq<char>, pos: int, ids: Seq<Seq<char>>, limit: nat)
    requires
        ids.len() < limit,
    ensures
        scan_ids(s, link, pos, ids, Some(limit)).len() <= limit,
    decreases s.len() + 1 - pos,
{
    let f = find_from(s, link, pos);
    if pos < 0 || f < pos || link.len() == 0 {
    } else {
        lemma_find_from(s, link, pos);
        let start = f + link.len();
        let n = digit_run(s, start);
        lemma_digit_run_bound(s, start);
        let id = s.subrange(start, start + n);
        let pushed = n > 0 && !ids.contains(id);
        let next = if pushed {
            ids.push(id)
        } else {
            ids
        };
        if !(pushed && Some(limit) == Some(next.len())) {
            lemma_scan_limit(s, link, start + n, next, limit);
        }
    }
}

/// A scan lists each ID once: the search results and the required items of a page hold no ID
/// twice.
pub proof fn lemma_scan_distinct(
    s: Seq<char>,
    link: Seq<char>,
    pos: int,
    ids: Seq<Seq<char>>,
    limit: Option<nat>,
)
    requires
        ids.no_duplicates(),
    ensures
        scan_ids(s, link, pos, ids, limit).no_duplicates(),
    decreases s.len() + 1 - pos,
{
    let f = find_from(s, link, pos);
    if !(pos < 0 || f < pos || link.len() == 0) {
        lemma_find_from(s, link, pos);
        let start = f + link.len();
        let n = digit_run(s, start);
        lemma_digit_run_bound(s, start);
        let id = s.subrange(start, start + n);
        let pushed = n > 0 && !ids.contains(id);
        let next = if pushed {
            ids.push(id)
        } else {
            ids
        };
        if pushed {
            assert forall|a: int, b: int| 0 <= a < b < next.len() implies next[a] != next[b] by {
                if b == ids.len() {
                    assert(next[a] == ids[a]);
                }
            }
        }
        if !(pushed && limit == Some(next.len())) {
            lemma_scan_distinct(s, link, start + n, next, limit);
        }
    }
}

fn digit_count(s: &[char], start: usize) -> (n: usize)
    requires
        start <= s.len(),
    ensures
        n == digit_run(s@, start as int),
        start + n <= s.len(),
        s@.subrange(start as int, start + n).len() == n,
{
    let mut i = start;
    while i < s.len() && '0' <= s[i] && s[i] <= '9'
        invariant
            start <= i <= s.len(),
            digit_run(s@, start as int) == (i - start) + digit_run(s@, i as int),
        decreases s.len() - i,
    {
        i = i + 1;
    }
    i - start
}

fn slice_string(s: &[char], from: usize, to: usize) -> (r: String)
    requires
        from <= to <= s.len(),
    ensures
        r@ == s@.subrange(from as int, to as int),
{
    let mut v: Vec<char> = Vec::new();
    let mut i = from;
    while i < to
        invariant
            from <= i <= to,
            to <= s.len(),
            v@ == s@.subrange(from as int, i as int),
        decreases to - i,
    {
        v.push(s[i]);
        i = i + 1;
        assert(v@ =~= s@.subrange(from as int, i as int));
    }
    string_of(&v)
}

fn scan(s: &[char], link: &str, limit: usize) -> (r: Vec<String>)
    ensures
        str_views(r@) == scan_ids(
            s@,
            link@,
            0,
            seq![],
            if limit == 0 {
                None
            } else {
                Some(limit as nat)
            },
        ),
{
    let l = chars_of(link);
    let ghost lim: Option<nat> = if limit == 0 {
        None
    } else {
        Some(limit as nat)
    };
    let mut ids: Vec<String> = Vec::new();
    if l.len() == 0 {
        assert(str_views(ids@) =~= seq![]);
        return ids;
    }
    let mut pos: usize = 0;
    assert(str_views(ids@) =~= seq![]);
    while pos <= s.len()
        invariant
            l@ == link@,
            l@.len() > 0,
            pos <= s.len() + 1,
            scan_ids(s@, link@, 0, seq![], lim) == scan_ids(s@, link@, pos as int, str_views(ids@), lim),
            lim == (if limit == 0 { None } else { Some(limit as nat) }),
        decreases s.len() + 1 - pos,
    {
        proof {
            lemma_find_from(s@, l@, pos as int);
        }
        match find_chars_from(s, &l, pos) {
            None => {
                return ids;
            },
            Some(f) => {
                let start = f + l.len();
                let n = digit_count(s, start);
                let ghost before = str_views(ids@);
                let mut pushed = false;
                if n > 0 {
                    let id = slice_string(s, start, start + n);
                    if !contains_str(&ids, id.as_str()) {
                        ids.push(id);
                        pushed = true;
                        assert(str_views(ids@) =~= before.push(s@.subrange(start as int, start + n)));
                    }
                }
                if pushed && limit != 0 && ids.len() == limit {
                    return ids;
                }
                pos = start + n;
            },
        }
    }
    ids
}

pub const SEARCH_LINK: &'static str = "https://steamcommunity.com/sharedfiles/filedetails/?id=";

/// The first 30 distinct Workshop item IDs linked from a search result page, in page order.
pub fn workshop_ids_from_search_html(html: &str) -> (r: Vec<String>)
    ensures
        str_views(r@) == scan_ids(html@, SEARCH_LINK@, 0, seq![], Some(30)),
{
    scan(&chars_of(html), SEARCH_LINK, 30)
}


/// Where the "Required items" list of a Workshop page starts.
pub const REQUIRED_MARK: &'static str = "id=\"RequiredItems\"";

/// The markers that end the "Required items" list; the first is preferred.
pub const CREATED_BY: &'static str = "<!-- created by -->";

pub const RIGHT_TITLE: &'static str = "rightSectionTopTitle";

pub const ITEM_LINK: &'static str = "filedetails/?id=";

/// The part of a Workshop page that lists its required items: from the marker to the first
/// end marker after it (or the end of the page); empty when the page has no such list.
pub open spec fn required_section(html: Seq<char>) -> Seq<char> {
    let start = find(html, REQUIRED_MARK@);
    if start < 0 {
        seq![]
    } else {
        let section = html.subrange(start, html.len() as int);
        let a = find(section, CREATED_BY@);
        let b = find(section, RIGHT_TITLE@);
        let end = if a >= 0 {
            a
        } else if b >= 0 {
            b
        } else {
            section.len() as int
        };
        section.subrange(0, end)
    }
}

/// The IDs linked from the "Required items" list, each once, in page order.
pub open spec fn spec_required_ids(html: Seq<char>) -> Seq<Seq<char>> {
    scan_ids(required_section(html), ITEM_LINK@, 0, seq![], None)
}

fn sub_chars(s: &[char], from: usize, to: usize) -> (r: Vec<char>)
    requires
        from <= to <= s.len(),
    ensures
        r@ == s@.subrange(from as int, to as int),
{
    let mut v: Vec<char> = Vec::new();
    let mut i = from;
    while i < to
        invariant
            from <= i <= to,
            to <= s.len(),
            v@ == s@.subrange(from as int, i as int),
        decreases to - i,
    {
        v.push(s[i]);
        i = i + 1;
        assert(v@ =~= s@.subrange(from as int, i as int));
    }
    v
}

/// IDs listed under "Required items" on a Workshop page.
pub fn parse_required_items(html: &str) -> (r: Vec<String>)
    ensures
        str_views(r@) == spec_required_ids(html@),
{
    let h = chars_of(html);
    let mark = chars_of(REQUIRED_MARK);
    match find_chars_from(&h, &mark, 0) {
        None => {
            let empty: Vec<char> = Vec::new();
            assert(required_section(html@) =~= empty@);
            scan(&empty, ITEM_LINK, 0)
        },
        Some(start) => {
            proof {
                lemma_find_from(h@, mark@, 0);
            }
            let section = sub_chars(&h, start, h.len());
            let created = chars_of(CREATED_BY);
            let right = chars_of(RIGHT_TITLE);
            let end = match find_chars_from(&section, &created, 0) {
                Some(a) => a,
                None => match find_chars_from(&section, &right, 0) {
                    Some(b) => b,
                    None => section.len(),
                },
            };
            proof {
                lemma_find_from(section@, created@, 0);
                lemma_find_from(section@, right@, 0);
            }
            let listed = sub_chars(&section, 0, end);
            assert(listed@ == required_section(html@));
            scan(&listed, ITEM_LINK, 0)
        },
    }
}

/// At most this many required items are collected before the check gives up.
pub const MAX_REQUIRED: usize = 50;

/// Adds each child that is neither the root nor already found, in order. `None` when a new child
/// arrives while `MAX_REQUIRED` items are already found.
pub open spec fn absorb(root: Seq<char>, found: Seq<Seq<char>>, children: Seq<Seq<char>>) -> Option<
    Seq<Seq<char>>,
>
    decreases children.len(),
{
    if children.len() == 0 {
        Some(found)
    } else {
        let c = children[0];
        if c == root || found.contains(c) {
            absorb(root, found, children.drop_first())
        } else if found.len() >= MAX_REQUIRED {
            None
        } else {
            absorb(root, found.push(c), children.drop_first())
        }
    }
}

pub open spec fn fetch_error(next: Seq<char>, e: Seq<char>) -> Seq<char> {
    "Couldn't check required mods for "@ + next + ": "@ + e
}

pub open spec fn no_duplicates(s: Seq<Seq<char>>) -> bool {
    forall|i: int, j: int| 0 <= i < j < s.len() ==> s[i] != s[j]
}

/// What every state of a required-items walk satisfies.
pub open spec fn walk_sound(root: Seq<char>, found: Seq<Seq<char>>, fetched: nat) -> bool {
    &&& is_numeric(root)
    &&& no_duplicates(found)
    &&& !found.contains(root)
    &&& found.len() <= MAX_REQUIRED
    &&& forall|i: int| 0 <= i < found.len() ==> is_numeric(#[trigger] found[i])
    &&& fetched <= found.len() + 1
}

/// The page a walk asks for next: the root first, then each found item in the order found.
pub open spec fn walk_next(root: Seq<char>, found: Seq<Seq<char>>, fetched: nat) -> Option<
    Seq<char>,
> {
    if fetched == 0 {
        Some(root)
    } else if fetched - 1 < found.len() {
        Some(found[fetched - 1])
    } else {
        None
    }
}

/// A breadth-first walk over the "Required items" of a Workshop item, driven one fetched page at
/// a time.
pub struct RequiredWalk {
    root: String,
    found: Vec<String>,
    fetched: usize,
}

impl RequiredWalk {
    pub closed spec fn root_view(&self) -> Seq<char> {
        self.root@
    }

    pub closed spec fn found_view(&self) -> Seq<Seq<char>> {
        str_views(self.found@)
    }

    pub closed spec fn fetched_view(&self) -> nat {
        self.fetched as nat
    }

    pub open spec fn sound(&self) -> bool {
        walk_sound(self.root_view(), self.found_view(), self.fetched_view())
    }

    pub open spec fn next_view(&self) -> Option<Seq<char>> {
        walk_next(self.root_view(), self.found_view(), self.fetched_view())
    }

    /// Starts a walk at `id`; fails unless `id` is a non-empty run of ASCII digits.
    pub fn start(id: &str) -> (r: Result<RequiredWalk, String>)
        ensures
            r is Err <==> !is_numeric(id@),
            r matches Err(e) ==> e@ == "Invalid Workshop ID"@,
            r matches Ok(w) ==> w.sound() && w.root_view() == id@ && w.found_view() == Seq::<
                Seq<char>,
            >::empty() && w.fetched_view() == 0,
    {
        if !numeric(id) {
            return Err("Invalid Workshop ID".to_string());
        }
        let w = RequiredWalk { root: id.to_string(), found: Vec::new(), fetched: 0 };
        assert(w.found_view() =~= Seq::<Seq<char>>::empty());
        Ok(w)
    }

    /// The ID whose page is needed next, or `None` once every found item has been checked.
    pub fn next_request(&self) -> (r: Option<String>)
        requires
            self.sound(),
        ensures
            match r {
                Some(s) => self.next_view() == Some(s@),
                None => self.next_view() is None,
            },
    {
        if self.fetched == 0 {
            Some(self.root.clone())
        } else if self.fetched - 1 < self.found.len() {
            Some(self.found[self.fetched - 1].clone())
        } else {
            None
        }
    }

    /// The required items found so far, in the order found.
    pub fn found(&self) -> (r: Vec<String>)
        ensures
            str_views(r@) == self.found_view(),
    {
        let mut r: Vec<String> = Vec::new();
        let mut i: usize = 0;
        while i < self.found.len()
            invariant
                i <= self.found@.len(),
                str_views(r@) == self.found_view().take(i as int),
            decreases self.found.len() - i,
        {
            let ghost before = str_views(r@);
            r.push(self.found[i].clone());
            assert(str_views(r@) =~= before.push(self.found@[i as int]@));
            i = i + 1;
            assert(self.found_view().take(i as int) =~= self.found_view().take(i - 1).push(
                self.found@[i - 1]@,
            ));
        }
        assert(self.found_view().take(i as int) =~= self.found_view());
        r
    }

    /// Takes the page for the requested ID (or the error that fetching it gave) and queues its
    /// required items that were not seen before. On an error the walk is left as it was.
    pub fn feed(&mut self, page: Result<String, String>) -> (r: Result<(), String>)
        requires
            old(self).sound(),
            old(self).next_view() is Some,
        ensures
            final(self).sound(),
            final(self).root_view() == old(self).root_view(),
            r is Err ==> final(self).found_view() == old(self).found_view()
                && final(self).fetched_view() == old(self).fetched_view(),
            match page {
                Err(e) => r matches Err(m) && m@ == fetch_error(old(self).next_view().unwrap(), e@),
                Ok(html) => match absorb(
                    old(self).root_view(),
                    old(self).found_view(),
                    spec_required_ids(html@),
                ) {
                    None => r matches Err(m) && m@
                        == "This mod requires too many other mods to check."@,
                    Some(f) => r is Ok && final(self).found_view() == f
                        && final(self).fetched_view() == old(self).fetched_view() + 1,
                },
            },
    {
        let next = match self.next_request() {
            Some(n) => n,
            None => {
                return Err(String::new());
            },
        };
        match &page {
            Err(e) => {
                let mut m: Vec<char> = Vec::new();
                push_str(&mut m, "Couldn't check required mods for ");
                push_str(&mut m, next.as_str());
                push_str(&mut m, ": ");
                push_str(&mut m, e.as_str());
                assert(m@ == fetch_error(next@, e@));
                assert(next@ == self.next_view().unwrap());
                Err(string_of(&m))
            },
            Ok(html) => {
                let children = parse_required_items(html.as_str());
                let ghost cv = str_views(children@);
                let ghost root = self.root@;
                proof {
                    lemma_scan_numeric(required_section(html@), ITEM_LINK@, 0, seq![], None);
                }
                let mut found = self.found();
                let mut i: usize = 0;
                assert(cv.subrange(0, cv.len() as int) =~= cv);
                while i < children.len()
                    invariant
                        i <= children@.len(),
                        cv == str_views(children@),
                        root == self.root@,
                        self.sound(),
                        self.next_view() is Some,
                        page matches Ok(h) && h@ == html@,
                        cv == spec_required_ids(html@),
                        *self == *old(self),
                        forall|k: int| 0 <= k < cv.len() ==> is_numeric(#[trigger] cv[k]),
                        absorb(root, self.found_view(), cv) == absorb(
                            root,
                            str_views(found@),
                            cv.subrange(i as int, cv.len() as int),
                        ),
                        walk_sound(root, str_views(found@), 0),
                        self.found_view().len() <= str_views(found@).len(),
                    decreases children.len() - i,
                {
                    let ghost rest = cv.subrange(i as int, cv.len() as int);
                    assert(rest.drop_first() =~= cv.subrange(i + 1, cv.len() as int));
                    assert(rest[0] == children@[i as int]@);
                    let c = children[i].as_str();
                    if str_eq(c, self.root.as_str()) || contains_str(&found, c) {
                    } else if found.len() >= MAX_REQUIRED {
                        return Err("This mod requires too many other mods to check.".to_string());
                    } else {
                        let ghost before = str_views(found@);
                        found.push(children[i].clone());
                        assert(str_views(found@) =~= before.push(cv[i as int]));
                        assert(is_numeric(cv[i as int]));
                    }
                    i = i + 1;
                }
                assert(cv.subrange(i as int, cv.len() as int) =~= Seq::<Seq<char>>::empty());
                self.found = found;
                self.fetched = self.fetched + 1;
                Ok(())
            },
        }
    }
}

/// Every ID that a scan adds is a non-empty run of ASCII digits.
pub proof fn lemma_scan_numeric(
    s: Seq<char>,
    link: Seq<char>,
    pos: int,
    ids: Seq<Seq<char>>,
    limit: Option<nat>,
)
    requires
        forall|k: int| 0 <= k < ids.len() ==> is_numeric(#[trigger] ids[k]),
    ensures
        forall|k: int|
            0 <= k < scan_ids(s, link, pos, ids, limit).len() ==> is_numeric(
                #[trigger] scan_ids(s, link, pos, ids, limit)[k],
            ),
    decreases s.len() + 1 - pos,
{
    let f = find_from(s, link, pos);
    if pos < 0 || f < pos || link.len() == 0 {
        assert(scan_ids(s, link, pos, ids, limit) == ids);
    } else {
        lemma_find_from(s, link, pos);
        let start = f + link.len();
        let n = digit_run(s, start);
        lemma_digit_run_bound(s, start);
        lemma_digit_run_digits(s, start);
        let id = s.subrange(start, start + n);
        let pushed = n > 0 && !ids.contains(id);
        let next = if pushed {
            ids.push(id)
        } else {
            ids
        };
        assert forall|k: int| 0 <= k < next.len() implies is_numeric(#[trigger] next[k]) by {
            if k == ids.len() {
                assert(next[k] == id);
            }
        }
        if !(pushed && limit == Some(next.len())) {
            lemma_scan_numeric(s, link, start + n, next, limit);
            assert(scan_ids(s, link, pos, ids, limit) == scan_ids(s, link, start + n, next, limit));
        } else {
            assert(scan_ids(s, link, pos, ids, limit) == next);
        }
    }
}

pub proof fn lemma_digit_run_digits(s: Seq<char>, start: int)
    requires
        0 <= start <= s.len(),
    ensures
        forall|k: int| start <= k < start + digit_run(s, start) ==> crate::text::is_digit(#[trigger] s[k]),
    decreases s.len() - start,
{
    if start < s.len() && crate::text::is_digit(s[start]) {
        lemma_digit_run_digits(s, start + 1);
    }
}

/// Where a walk from `root` stands after the pages `answers` (one for each requested ID, in
/// order): the items found, or the error that stopped it.
pub open spec fn walk_state(root: Seq<char>, answers: Seq<Result<String, String>>) -> Result<
    Seq<Seq<char>>,
    Seq<char>,
>
    decreases answers.len(),
{
    if answers.len() == 0 {
        Ok(seq![])
    } else {
        match walk_state(root, answers.drop_last()) {
            Err(e) => Err(e),
            Ok(found) => match walk_next(root, found, (answers.len() - 1) as nat) {
                None => Ok(found),
                Some(next) => match answers.last() {
                    Err(e) => Err(fetch_error(next, e@)),
                    Ok(html) => match absorb(root, found, spec_required_ids(html@)) {
                        None => Err("This mod requires too many other mods to check."@),
                        Some(f) => Ok(f),
                    },
                },
            },
        }
    }
}

/// `answers` are what `fetch` gave for the pages the walk from `root` asked for, in order.
pub open spec fn walk_asked<F: FnMut(&str) -> Result<String, String>>(
    fetch: F,
    root: Seq<char>,
    answers: Seq<Result<String, String>>,
) -> bool {
    forall|i: int|
        0 <= i < answers.len() ==> {
            &&& #[trigger] walk_state(root, answers.take(i)) is Ok
            &&& walk_next(root, walk_state(root, answers.take(i))->Ok_0, i as nat) matches Some(next)
                && exists|s: &str| s@ == next && #[trigger] call_ensures(fetch, (s,), answers[i])
        }
}

/// Collects the Workshop items that `id` requires, directly or through other required items,
/// breadth first, each once. `fetch` gives the page of an item; a failed fetch fails the whole
/// check rather than returning an incomplete list.
pub fn required_items_with<F: FnMut(&str) -> Result<String, String>>(id: &str, fetch: F) -> (r:
    Result<Vec<String>, String>)
    requires
        forall|s: &str| call_requires(fetch, (s,)),
    ensures
        !is_numeric(id@) ==> (r matches Err(e) && e@ == "Invalid Workshop ID"@),
        is_numeric(id@) ==> exists|answers: Seq<Result<String, String>>|
            #[trigger] walk_asked(fetch, id@, answers) && match r {
                Ok(v) => walk_state(id@, answers) == Ok::<_, Seq<char>>(str_views(v@)) && walk_next(
                    id@,
                    str_views(v@),
                    answers.len(),
                ) is None,
                Err(e) => walk_state(id@, answers) == Err::<Seq<Seq<char>>, _>(e@),
            },
        r matches Ok(v) ==> walk_sound(id@, str_views(v@), (v@.len() + 1) as nat),
{
    let mut walk = match RequiredWalk::start(id) {
        Ok(w) => w,
        Err(e) => {
            return Err(e);
        },
    };
    let mut ask = fetch;
    let ghost mut answers: Seq<Result<String, String>> = seq![];
    loop
        invariant
            walk.sound(),
            walk.root_view() == id@,
            ask == fetch,
            forall|s: &str| call_requires(ask, (s,)),
            walk_asked(fetch, id@, answers),
            walk_state(id@, answers) == Ok::<_, Seq<char>>(walk.found_view()),
            walk.fetched_view() == answers.len(),
        decreases MAX_REQUIRED + 1 - walk.fetched_view(),
    {
        match walk.next_request() {
            None => {
                let found = walk.found();
                return Ok(found);
            },
            Some(next) => {
                let t = next.as_str();
                let page = ask(t);
                let ghost grown = answers.push(page);
                proof {
                    assert(call_ensures(fetch, (t,), page));
                    assert(grown.drop_last() =~= answers);
                    assert(grown.take(answers.len() as int) =~= answers);
                    assert forall|i: int| 0 <= i < grown.len() implies {
                        &&& #[trigger] walk_state(id@, grown.take(i)) is Ok
                        &&& walk_next(id@, walk_state(id@, grown.take(i))->Ok_0, i as nat) matches Some(n)
                            && exists|s: &str| s@ == n && #[trigger] call_ensures(fetch, (s,), grown[i])
                    } by {
                        if i < answers.len() {
                            assert(grown.take(i) =~= answers.take(i));
                            assert(grown[i] == answers[i]);
                            assert(walk_state(id@, answers.take(i)) is Ok);
                            let n = walk_next(id@, walk_state(id@, answers.take(i))->Ok_0, i as nat)->Some_0;
                            let s = choose|s: &str| s@ == n && #[trigger] call_ensures(fetch, (s,), answers[i]);
                            assert(call_ensures(fetch, (s,), grown[i]));
                        } else {
                            assert(t@ == next@);
                            assert(grown[i] == page);
                            assert(walk_state(id@, grown.take(i)) == Ok::<_, Seq<char>>(walk.found_view()));
                            assert(walk_next(id@, walk.found_view(), i as nat) == Some(next@));
                            assert(call_ensures(fetch, (t,), grown[i]));
                        }
                    }
                    assert(walk_asked(fetch, id@, grown));
                }
                let fed = walk.feed(page);
                proof {
                    answers = grown;
                }
                match fed {
                    Ok(()) => {},
                    Err(e) => {
                        return Err(e);
                    },
                }
            },
        }
    }
}

} // verus!
