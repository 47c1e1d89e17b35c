//! Reading DKIM verdicts out of `Authentication-Results` header values.

use mailparse::MailHeaderMap;
use vstd::prelude::*;

use crate::comments::{remove_comments, strip_comments};
use crate::text::{
    before_char, before_char_exec, chars_of, contains_concat, contains_ws, find, find_exec,
    has_ws, is_word, is_ws, lemma_find_bounds, occurs_at, same_chars, skip_exec, split_words, string_from_chars,
    string_views, views, words,
};

verus! {

/// What one authentication service reported about a message.
#[derive(Clone, Copy, Debug, PartialEq, Eq, Structural)]
pub struct AuthenticationResults {
    pub dkim_passed: bool,
}

pub open spec fn invalid_authserv_id() -> Seq<char> {
    seq!['i', 'n', 'v', 'a', 'l', 'i', 'd', 'A', 'u', 't', 'h', 's', 'e', 'r', 'v', 'I', 'd']
}

pub open spec fn dkim_tag() -> Seq<char> {
    seq!['d', 'k', 'i', 'm', '=']
}

pub open spec fn pass_word() -> Seq<char> {
    seq!['p', 'a', 's', 's']
}

pub open spec fn header_d_tag() -> Seq<char> {
    seq!['h', 'e', 'a', 'd', 'e', 'r', '.', 'd', '=']
}

pub open spec fn header_i_tag() -> Seq<char> {
    seq!['h', 'e', 'a', 'd', 'e', 'r', '.', 'i', '=', '@']
}

/// The authserv-id of a comment-free header value: what precedes the first `;`,
/// or the stand-in id where that is empty or holds whitespace.
pub open spec fn authserv_id_of(h: Seq<char>) -> Seq<char> {
    let id = before_char(h, ';');
    if id.len() == 0 || has_ws(id) {
        invalid_authserv_id()
    } else {
        id
    }
}

/// The `dkim=` result, up to the next `;`, says `pass` first and names `domain`
/// as signer by `header.d=` or `header.i=@`.
pub open spec fn dkim_segment_passes(seg: Seq<char>, domain: Seq<char>) -> bool {
    let t = words(seg);
    &&& t.len() > 0
    &&& t[0] == pass_word()
    &&& (t.contains(header_d_tag() + domain) || t.contains(header_i_tag() + domain))
}

/// The verdict of one header value: none where it holds no `dkim=`.
pub open spec fn header_verdict(h: Seq<char>, domain: Seq<char>) -> Option<bool> {
    match find(h, dkim_tag()) {
        Some(k) => Some(dkim_segment_passes(before_char(h.skip(k + 5), ';'), domain)),
        None => None,
    }
}

/// The verdict of the first header value, from the top, that holds `dkim=`.
pub open spec fn first_verdict(hs: Seq<Seq<char>>, domain: Seq<char>) -> Option<bool>
    decreases hs.len(),
{
    if hs.len() == 0 {
        None
    } else {
        match first_verdict(hs.drop_last(), domain) {
            Some(v) => Some(v),
            None => header_verdict(hs.last(), domain),
        }
    }
}

pub open spec fn group_passes(hs: Seq<Seq<char>>, domain: Seq<char>) -> bool {
    match first_verdict(hs, domain) {
        Some(v) => v,
        None => false,
    }
}

pub open spec fn stripped(hs: Seq<Seq<char>>) -> Seq<Seq<char>> {
    hs.map_values(|h: Seq<char>| strip_comments(h))
}

pub open spec fn in_group(id: Seq<char>) -> spec_fn(Seq<char>) -> bool {
    |h: Seq<char>| authserv_id_of(h) == id
}

/// The authserv-ids that the header values name.
pub open spec fn reported_ids(hs: Seq<Seq<char>>) -> Set<Seq<char>> {
    Set::new(|id: Seq<char>| exists|k: int| 0 <= k < hs.len() && authserv_id_of(#[trigger] stripped(hs)[k]) == id)
}

/// The verdict map that the header values `hs` give for a sender at `domain`.
pub open spec fn authres_map(hs: Seq<Seq<char>>, domain: Seq<char>) -> Map<
    Seq<char>,
    AuthenticationResults,
> {
    Map::new(
        |id: Seq<char>| reported_ids(hs).contains(id),
        |id: Seq<char>|
            AuthenticationResults {
                dkim_passed: group_passes(stripped(hs).filter(in_group(id)), domain),
            },
    )
}

pub open spec fn authres_header_name() -> Seq<char> {
    seq![
        'A', 'u', 't', 'h', 'e', 'n', 't', 'i', 'c', 'a', 't', 'i', 'o', 'n', '-', 'R', 'e', 's',
        'u', 'l', 't', 's',
    ]
}

/// The values of the headers named `key` in a raw header block, in order, as
/// mailparse decodes and unfolds them; none where the block does not parse.
pub uninterp spec fn mail_header_values(raw: Seq<u8>, key: Seq<char>) -> Option<Seq<Seq<char>>>;

/// Relies on mailparse's `parse_headers`, which splits a raw header block into
/// headers, and on `MailHeaderMap::get_all_values`, which returns the decoded
/// values of those named `key` (ignoring ASCII case), top first.
#[verifier::external_body]
fn header_values(raw: &[u8], key: &str) -> (r: Option<Vec<String>>)
    ensures
        r matches Some(v) ==> mail_header_values(raw@, key@) == Some(string_views(v@)),
        r is None ==> mail_header_values(raw@, key@) is None,
{
    match mailparse::parse_headers(raw) {
        Ok((headers, _)) => Some(headers.get_all_values(key)),
        Err(_) => None,
    }
}

/// The values of the `Authentication-Results` headers in a raw header block.
pub fn authres_header_values(raw_headers: &[u8]) -> (r: Option<Vec<String>>)
    ensures
        r matches Some(v) ==> mail_header_values(raw_headers@, authres_header_name()) == Some(
            string_views(v@),
        ),
        r is None ==> mail_header_values(raw_headers@, authres_header_name()) is None,
{
    let key = "Authentication-Results";
    proof {
        reveal_strlit("Authentication-Results");
        assert(key@ =~= authres_header_name());
    }
    header_values(raw_headers, key)
}

/// Verdicts keyed by authserv-id.
pub struct AuthresMap {
    entries: Vec<(String, AuthenticationResults)>,
}

impl View for AuthresMap {
    type V = Map<Seq<char>, AuthenticationResults>;

    closed spec fn view(&self) -> Map<Seq<char>, AuthenticationResults> {
        Map::new(
            |k: Seq<char>| exists|i: int| 0 <= i < self.entries.len() && self.entries@[i].0@ == k,
            |k: Seq<char>|
                self.entries@[choose|i: int|
                    0 <= i < self.entries.len() && self.entries@[i].0@ == k].1,
        )
    }
}

impl AuthresMap {
    /// Keys are distinct words.
    pub closed spec fn wf(&self) -> bool {
        &&& forall|i: int, j: int|
            0 <= i < j < self.entries.len() ==> self.entries@[i].0@ != self.entries@[j].0@
        &&& forall|i: int| 0 <= i < self.entries.len() ==> is_word(#[trigger] self.entries@[i].0@)
    }

    pub fn new() -> (r: Self)
        ensures
            r.wf(),
            r@ == Map::<Seq<char>, AuthenticationResults>::empty(),
    {
        let r = AuthresMap { entries: Vec::new() };
        assert(r@ =~= Map::<Seq<char>, AuthenticationResults>::empty());
        r
    }

    proof fn lemma_entry(&self, i: int)
        requires
            self.wf(),
            0 <= i < self.entries.len(),
        ensures
            self@.contains_key(self.entries@[i].0@),
            self@[self.entries@[i].0@] == self.entries@[i].1,
    {
        let k = self.entries@[i].0@;
        assert(self@.dom().contains(k));
        let j = choose|j: int| 0 <= j < self.entries.len() && self.entries@[j].0@ == k;
        assert(j == i);
    }

    fn index_of(&self, id: &[char]) -> (r: Option<usize>)
        requires
            self.wf(),
        ensures
            r matches Some(i) ==> i < self.entries.len() && self.entries@[i as int].0@ == id@,
            r is None ==> !self@.contains_key(id@),
    {
        let mut i: usize = 0;
        while i < self.entries.len()
            invariant
                i <= self.entries.len(),
                forall|k: int| 0 <= k < i ==> self.entries@[k].0@ != id@,
            decreases self.entries.len() - i,
        {
            let key = chars_of(self.entries[i].0.as_str());
            if same_chars(key.as_slice(), id) {
                return Some(i);
            }
            i = i + 1;
        }
        None
    }

    pub fn len(&self) -> (r: usize)
        requires
            self.wf(),
        ensures
            self@.dom().finite(),
            r == self@.len(),
    {
        proof {
            let keys = self.entries@.map_values(|e: (String, AuthenticationResults)| e.0@);
            assert(keys.no_duplicates());
            assert forall|k: Seq<char>| #[trigger] self@.dom().contains(k) <==> keys.to_set().contains(k) by {
                if self@.dom().contains(k) {
                    let j = choose|j: int| 0 <= j < self.entries.len() && self.entries@[j].0@ == k;
                    assert(keys[j] == k);
                }
                if keys.to_set().contains(k) {
                    let j = choose|j: int| 0 <= j < keys.len() && keys[j] == k;
                    assert(self.entries@[j].0@ == k);
                }
            }
            assert(self@.dom() =~= keys.to_set());
            keys.unique_seq_to_set();
        }
        self.entries.len()
    }

    pub fn is_empty(&self) -> (r: bool)
        requires
            self.wf(),
        ensures
            r == (self@.dom() == Set::<Seq<char>>::empty()),
    {
        let m = self.len();
        let n = self.entries.len();
        proof {
            if n == 0 {
                assert(self@.dom() =~= Set::<Seq<char>>::empty());
            } else {
                assert(self@.dom().contains(self.entries@[0].0@));
            }
        }
        n == 0
    }

    /// The verdict reported by `id`, if any.
    pub fn get(&self, id: &str) -> (r: Option<AuthenticationResults>)
        requires
            self.wf(),
        ensures
            r == (if self@.contains_key(id@) {
                Some(self@[id@])
            } else {
                None
            }),
    {
        let cs = chars_of(id);
        match self.index_of(cs.as_slice()) {
            Some(i) => {
                proof {
                    self.lemma_entry(i as int);
                }
                Some(self.entries[i].1)
            },
            None => None,
        }
    }

    /// Records `res` under `id`; an id that is empty or holds whitespace is
    /// refused, and the map then stays as it was.
    pub fn insert(&mut self, id: &str, res: AuthenticationResults) -> (ok: bool)
        requires
            old(self).wf(),
        ensures
            final(self).wf(),
            ok == is_word(id@),
            ok ==> final(self)@ == old(self)@.insert(id@, res),
            !ok ==> final(self)@ == old(self)@,
    {
        let cs = chars_of(id);
        if cs.len() == 0 || contains_ws(cs.as_slice()) {
            return false;
        }
        let key = string_from_chars(cs.as_slice());
        let ghost pre = *self;
        let ghost mut pos: int = pre.entries.len() as int;
        match self.index_of(cs.as_slice()) {
            Some(i) => {
                proof {
                    pos = i as int;
                }
                self.entries.set(i, (key, res));
                assert forall|j: int| 0 <= j < self.entries.len() && j != i implies self.entries@[j] == pre.entries@[j] by {}
            },
            None => {
                self.entries.push((key, res));
            },
        }
        proof {
            let m = old(self)@.insert(id@, res);
            assert forall|k: Seq<char>| #[trigger] self@.contains_key(k) <==> m.contains_key(k) by {
                if m.contains_key(k) && k != id@ {
                    let j = choose|j: int| 0 <= j < pre.entries.len() && pre.entries@[j].0@ == k;
                    assert(self.entries@[j].0@ == k);
                }
                if m.contains_key(k) && k == id@ {
                    assert(self.entries@[pos].0@ == k);
                }
                if self@.contains_key(k) && k != id@ {
                    let j = choose|j: int| 0 <= j < self.entries.len() && self.entries@[j].0@ == k;
                    assert(pre.entries@[j].0@ == k);
                }
            }
            assert forall|k: Seq<char>| #[trigger] self@.contains_key(k) implies self@[k] == m[k] by {
                let j = choose|j: int| 0 <= j < self.entries.len() && self.entries@[j].0@ == k;
                self.lemma_entry(j);
                if k != id@ {
                    pre.lemma_entry(j);
                }
            }
            assert(self@ =~= m);
        }
        true
    }

    /// The authserv-ids, each once.
    pub fn keys(&self) -> (r: Vec<String>)
        requires
            self.wf(),
        ensures
            string_views(r@).no_duplicates(),
            string_views(r@).to_set() == self@.dom(),
            forall|i: int| 0 <= i < r.len() ==> is_word(#[trigger] string_views(r@)[i]),
    {
        let mut r: Vec<String> = Vec::new();
        let mut i: usize = 0;
        while i < self.entries.len()
            invariant
                self.wf(),
                i <= self.entries.len(),
                r.len() == i,
                forall|k: int| 0 <= k < i ==> r@[k]@ == self.entries@[k].0@,
            decreases self.entries.len() - i,
        {
            r.push(self.entries[i].0.clone());
            i = i + 1;
        }
        proof {
            let v = string_views(r@);
            assert forall|a: int, b: int| 0 <= a < v.len() && 0 <= b < v.len() && a != b implies v[a] != v[b] by {
                if a < b {
                    assert(self.entries@[a].0@ != self.entries@[b].0@);
                } else {
                    assert(self.entries@[b].0@ != self.entries@[a].0@);
                }
            }
            assert forall|k: Seq<char>| #[trigger] v.to_set().contains(k) <==> self@.dom().contains(k) by {
                if self@.dom().contains(k) {
                    let j = choose|j: int| 0 <= j < self.entries.len() && self.entries@[j].0@ == k;
                    assert(v[j] == k);
                }
                if v.to_set().contains(k) {
                    let j = choose|j: int| 0 <= j < v.len() && v[j] == k;
                    assert(self.entries@[j].0@ == k);
                }
            }
            assert(v.to_set() =~= self@.dom());
            assert forall|a: int| 0 <= a < r.len() implies is_word(#[trigger] v[a]) by {
                assert(is_word(self.entries@[a].0@));
            }
        }
        r
    }
}

/// The authserv-id of a comment-free header value.
fn resolve_authserv_id(h: &[char]) -> (r: Vec<char>)
    ensures
        r@ == authserv_id_of(h@),
        is_word(r@),
{
    let id = before_char_exec(h, ';');
    if id.len() == 0 || contains_ws(id.as_slice()) {
        let r: Vec<char> = vec![
            'i', 'n', 'v', 'a', 'l', 'i', 'd', 'A', 'u', 't', 'h', 's', 'e', 'r', 'v', 'I', 'd',
        ];
        assert(r@ =~= invalid_authserv_id());
        assert(!has_ws(r@)) by {
            assert forall|i: int| 0 <= i < r@.len() implies !is_ws(#[trigger] r@[i]) by {}
        }
        r
    } else {
        id
    }
}

/// The verdict of one comment-free header value.
fn dkim_verdict(h: &[char], domain: &[char]) -> (r: Option<bool>)
    ensures
        r == header_verdict(h@, domain@),
{
    let tag: Vec<char> = vec!['d', 'k', 'i', 'm', '='];
    assert(tag@ =~= dkim_tag());
    assert(tag.len() == 5);
    match find_exec(h, tag.as_slice()) {
        None => None,
        Some(k) => {
            proof {
                lemma_find_bounds(h@, tag@, 0);
                assert(find(h@, tag@) == Some(k as int));
                assert(occurs_at(h@, tag@, k as int));
                assert(tag@.len() == 5);
                assert(k + 5 <= h@.len());
                assert(h@.len() == h.len());
            }
            let rest = skip_exec(h, k + 5);
            let seg = before_char_exec(rest.as_slice(), ';');
            let toks = split_words(seg.as_slice());
            let pass: Vec<char> = vec!['p', 'a', 's', 's'];
            assert(pass@ =~= pass_word());
            if toks.len() == 0 || !same_chars(toks[0].as_slice(), pass.as_slice()) {
                assert(toks.len() > 0 ==> views(toks@)[0] == toks@[0]@);
                return Some(false);
            }
            assert(views(toks@)[0] == toks@[0]@);
            let d_tag: Vec<char> = vec!['h', 'e', 'a', 'd', 'e', 'r', '.', 'd', '='];
            let i_tag: Vec<char> = vec!['h', 'e', 'a', 'd', 'e', 'r', '.', 'i', '=', '@'];
            assert(d_tag@ =~= header_d_tag());
            assert(i_tag@ =~= header_i_tag());
            Some(
                contains_concat(&toks, d_tag.as_slice(), domain) || contains_concat(
                    &toks,
                    i_tag.as_slice(),
                    domain,
                ),
            )
        },
    }
}

/// Whether the header values of one authserv-id, top first, say that DKIM passed
/// for `from_domain`: the first value that holds `dkim=` decides, and with none
/// the answer is no.
pub fn authres_dkim_passed(headers: &[String], from_domain: &str) -> (r: bool)
    ensures
        r == group_passes(string_views(headers@), from_domain@),
{
    let domain = chars_of(from_domain);
    let ghost hs = string_views(headers@);
    let mut i: usize = 0;
    while i < headers.len()
        invariant
            hs == string_views(headers@),
            domain@ == from_domain@,
            i <= headers.len(),
            first_verdict(hs.take(i as int), from_domain@) is None,
        decreases headers.len() - i,
    {
        let h = chars_of(headers[i].as_str());
        let v = dkim_verdict(h.as_slice(), domain.as_slice());
        assert(hs.take(i + 1).drop_last() =~= hs.take(i as int));
        assert(hs.take(i + 1).last() == h@);
        match v {
            Some(b) => {
                proof {
                    lemma_first_verdict_prefix(hs, (i + 1) as int, from_domain@);
                }
                return b;
            },
            None => {},
        }
        i = i + 1;
    }
    assert(hs.take(headers.len() as int) =~= hs);
    false
}

proof fn lemma_first_verdict_prefix(hs: Seq<Seq<char>>, n: int, domain: Seq<char>)
    requires
        0 <= n <= hs.len(),
        first_verdict(hs.take(n), domain) is Some,
    ensures
        first_verdict(hs, domain) == first_verdict(hs.take(n), domain),
    decreases hs.len() - n,
{
    if n < hs.len() {
        assert(hs.take(n + 1).drop_last() =~= hs.take(n));
        lemma_first_verdict_prefix(hs, n + 1, domain);
    } else {
        assert(hs.take(n) =~= hs);
    }
}

spec fn seen_before(st: Seq<Seq<char>>, n: int, id: Seq<char>) -> bool {
    exists|k: int| 0 <= k < n && authserv_id_of(#[trigger] st[k]) == id
}

spec fn listed(ids: Seq<Vec<char>>, id: Seq<char>) -> bool {
    exists|j: int| 0 <= j < ids.len() && #[trigger] ids[j]@ == id
}

proof fn lemma_filter_step(s: Seq<Seq<char>>, i: int, p: spec_fn(Seq<char>) -> bool)
    requires
        0 <= i < s.len(),
    ensures
        s.take(i + 1).filter(p) == (if p(s[i]) {
            s.take(i).filter(p).push(s[i])
        } else {
            s.take(i).filter(p)
        }),
{
    reveal(Seq::filter);
    assert(s.take(i + 1).drop_last() =~= s.take(i));
}

proof fn lemma_filter_none(s: Seq<Seq<char>>, p: spec_fn(Seq<char>) -> bool)
    requires
        forall|k: int| 0 <= k < s.len() ==> !p(#[trigger] s[k]),
    ensures
        s.filter(p) == Seq::<Seq<char>>::empty(),
    decreases s.len(),
{
    reveal(Seq::filter);
    if s.len() > 0 {
        let t = s.drop_last();
        assert forall|k: int| 0 <= k < t.len() implies !p(#[trigger] t[k]) by {
            assert(t[k] == s[k]);
        }
        lemma_filter_none(t, p);
    }
}

/// The verdicts of a message's `Authentication-Results` header values (top
/// first), one per authserv-id, for a sender at `from_domain`. Comments are
/// removed from each value first; the values of one authserv-id keep their order.
pub fn parse_authres_headers(headers: &[String], from_domain: &str) -> (r: AuthresMap)
    ensures
        r.wf(),
        r@ == authres_map(string_views(headers@), from_domain@),
{
    let domain = chars_of(from_domain);
    let ghost st = stripped(string_views(headers@));
    let mut ids: Vec<Vec<char>> = Vec::new();
    let mut verdicts: Vec<Option<bool>> = Vec::new();
    let mut i: usize = 0;
    while i < headers.len()
        invariant
            st == stripped(string_views(headers@)),
            domain@ == from_domain@,
            i <= headers.len(),
            ids.len() == verdicts.len(),
            forall|j: int| 0 <= j < ids.len() ==> is_word(#[trigger] ids@[j]@),
            forall|a: int, b: int| 0 <= a < b < ids.len() ==> ids@[a]@ != ids@[b]@,
            forall|j: int|
                0 <= j < ids.len() ==> #[trigger] verdicts@[j] == first_verdict(
                    st.take(i as int).filter(in_group(ids@[j]@)),
                    from_domain@,
                ),
            forall|id: Seq<char>| #[trigger] seen_before(st, i as int, id) ==> listed(ids@, id),
            forall|id: Seq<char>| #[trigger] listed(ids@, id) ==> seen_before(st, i as int, id),
        decreases headers.len() - i,
    {
        let text = remove_comments(headers[i].as_str());
        let h = chars_of(text.as_str());
        assert(h@ == st[i as int]);
        let id = resolve_authserv_id(h.as_slice());
        let v = dkim_verdict(h.as_slice(), domain.as_slice());
        let ghost ids0 = ids@;
        let ghost verdicts0 = verdicts@;
        proof {
            assert forall|j: int| 0 <= j < ids.len() implies st.take(i + 1).filter(
                in_group(ids@[j]@),
            ) == (if ids@[j]@ == id@ {
                st.take(i as int).filter(in_group(ids@[j]@)).push(h@)
            } else {
                st.take(i as int).filter(in_group(ids@[j]@))
            }) by {
                lemma_filter_step(st, i as int, in_group(ids@[j]@));
            }
        }
        let mut found: Option<usize> = None;
        let mut j: usize = 0;
        while j < ids.len()
            invariant
                ids.len() == ids0.len(),
                ids@ == ids0,
                j <= ids.len(),
                found is None ==> forall|q: int| 0 <= q < j ==> ids@[q]@ != id@,
                found matches Some(q) ==> q < ids.len() && ids@[q as int]@ == id@,
            decreases ids.len() - j,
        {
            if found.is_none() && same_chars(ids[j].as_slice(), id.as_slice()) {
                found = Some(j);
            }
            j = j + 1;
        }
        match found {
            Some(q) => {
                if verdicts[q].is_none() {
                    verdicts.set(q, v);
                }
                proof {
                    assert forall|jj: int| 0 <= jj < ids.len() implies #[trigger] verdicts@[jj]
                        == first_verdict(
                        st.take(i + 1).filter(in_group(ids@[jj]@)),
                        from_domain@,
                    ) by {
                        let f = st.take(i as int).filter(in_group(ids@[jj]@));
                        if ids@[jj]@ == id@ {
                            assert(jj == q as int);
                            assert(f.push(h@).drop_last() =~= f);
                        }
                    }
                }
            },
            None => {
                proof {
                    let f = st.take(i as int).filter(in_group(id@));
                    assert forall|k: int| 0 <= k < st.take(i as int).len() implies !(in_group(
                        id@,
                    ))(#[trigger] st.take(i as int)[k]) by {
                        assert(st.take(i as int)[k] == st[k]);
                        if authserv_id_of(st[k]) == id@ {
                            assert(seen_before(st, i as int, id@));
                            assert(listed(ids@, id@));
                        }
                    }
                    lemma_filter_none(st.take(i as int), in_group(id@));
                    lemma_filter_step(st, i as int, in_group(id@));
                    assert(f.push(h@).drop_last() =~= f);
                }
                ids.push(id);
                verdicts.push(v);
                proof {
                    assert forall|jj: int| 0 <= jj < ids.len() implies #[trigger] verdicts@[jj]
                        == first_verdict(
                        st.take(i + 1).filter(in_group(ids@[jj]@)),
                        from_domain@,
                    ) by {
                        if jj < ids0.len() {
                            assert(ids@[jj] == ids0[jj]);
                            assert(verdicts@[jj] == verdicts0[jj]);
                            assert(ids0[jj]@ != id@);
                        } else {
                            let f = st.take(i as int).filter(in_group(id@));
                            assert(f.push(h@).drop_last() =~= f);
                            assert(first_verdict(f, from_domain@) is None);
                        }
                    }
                }
            },
        }
        proof {
            assert forall|idx: Seq<char>| #[trigger] seen_before(st, i + 1, idx) implies listed(ids@, idx) by {
                if seen_before(st, i + 1, idx) {
                    let k = choose|k: int| 0 <= k < i + 1 && authserv_id_of(#[trigger] st[k]) == idx;
                    if k < i {
                        assert(seen_before(st, i as int, idx));
                        let jw = choose|jw: int| 0 <= jw < ids0.len() && #[trigger] ids0[jw]@ == idx;
                        assert(ids@[jw]@ == idx);
                    } else {
                        match found {
                            Some(q) => {
                                assert(ids@[q as int]@ == idx);
                            },
                            None => {
                                assert(ids@[ids.len() - 1]@ == idx);
                            },
                        }
                    }
                }
            }
            assert forall|idx: Seq<char>| #[trigger] listed(ids@, idx) implies seen_before(st, i + 1, idx) by {
                let jj = choose|jj: int| 0 <= jj < ids.len() && #[trigger] ids@[jj]@ == idx;
                if jj < ids0.len() {
                    assert(ids0[jj]@ == idx);
                    assert(listed(ids0, idx));
                    let k = choose|k: int| 0 <= k < i && authserv_id_of(#[trigger] st[k]) == idx;
                    assert(0 <= k < i + 1 && authserv_id_of(st[k]) == idx);
                } else {
                    assert(authserv_id_of(st[i as int]) == idx);
                }
            }
        }
        i = i + 1;
    }
    assert(st.take(headers.len() as int) =~= st);
    let mut entries: Vec<(String, AuthenticationResults)> = Vec::new();
    let mut j: usize = 0;
    while j < ids.len()
        invariant
            ids.len() == verdicts.len(),
            j <= ids.len(),
            entries.len() == j,
            forall|q: int|
                0 <= q < j ==> (#[trigger] entries@[q]).0@ == ids@[q]@ && entries@[q].1.dkim_passed
                    == match verdicts@[q] {
                    Some(b) => b,
                    None => false,
                },
        decreases ids.len() - j,
    {
        let passed = match verdicts[j] {
            Some(b) => b,
            None => false,
        };
        entries.push((string_from_chars(ids[j].as_slice()), AuthenticationResults { dkim_passed: passed }));
        j = j + 1;
    }
    let r = AuthresMap { entries };
    proof {
        assert forall|a: int, b: int| 0 <= a < b < r.entries.len() implies r.entries@[a].0@
            != r.entries@[b].0@ by {
            assert(r.entries@[a].0@ == ids@[a]@);
            assert(r.entries@[b].0@ == ids@[b]@);
        }
        assert forall|a: int| 0 <= a < r.entries.len() implies is_word(#[trigger] r.entries@[a].0@) by {
            assert(r.entries@[a].0@ == ids@[a]@);
        }
        let hs = string_views(headers@);
        assert forall|id: Seq<char>| #[trigger] r@.dom().contains(id) <==> reported_ids(hs).contains(id) by {
            if r@.dom().contains(id) {
                let q = choose|q: int| 0 <= q < r.entries.len() && r.entries@[q].0@ == id;
                assert(ids@[q]@ == id);
                assert(listed(ids@, id));
                let k = choose|k: int| 0 <= k < headers.len() && authserv_id_of(#[trigger] st[k]) == id;
                assert(stripped(hs)[k] == st[k]);
            }
            if reported_ids(hs).contains(id) {
                let k = choose|k: int| 0 <= k < hs.len() && authserv_id_of(#[trigger] stripped(hs)[k]) == id;
                assert(authserv_id_of(st[k]) == id);
                assert(seen_before(st, headers.len() as int, id));
                let q = choose|q: int| 0 <= q < ids.len() && #[trigger] ids@[q]@ == id;
                assert(r.entries@[q].0@ == id);
            }
        }
        assert(r@.dom() =~= reported_ids(hs));
        assert forall|id: Seq<char>| #[trigger] r@.contains_key(id) implies r@[id].dkim_passed
            == group_passes(st.filter(in_group(id)), from_domain@) by {
            let q = choose|q: int| 0 <= q < r.entries.len() && r.entries@[q].0@ == id;
            r.lemma_entry(q);
            assert(ids@[q]@ == id);
        }
        assert(r@ =~= authres_map(hs, from_domain@));
    }
    r
}

} // verus!
