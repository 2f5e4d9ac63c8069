//! The room status model and the decoding of the remote platform's values.
use vstd::prelude::*;
use crate::task::FetchedStatus;

verus! {

/// Current state of a live room, as the remote platform reports it.
#[derive(Debug, Clone, Copy, PartialEq, Eq, Structural)]
pub enum LiveStatus {
    /// Not broadcasting: raw code 0.
    Sleep,
    /// Broadcasting live: raw code 1.
    Living,
    /// Replaying recorded content: raw code 2.
    Loop,
}

/// The raw code of a status.
pub open spec fn status_code(s: LiveStatus) -> int {
    match s {
        LiveStatus::Sleep => 0,
        LiveStatus::Living => 1,
        LiveStatus::Loop => 2,
    }
}

/// The status that a raw code stands for; any code but 0, 1 and 2 stands for none.
pub open spec fn status_of_code(code: int) -> Option<LiveStatus> {
    if code == 0 {
        Some(LiveStatus::Sleep)
    } else if code == 1 {
        Some(LiveStatus::Living)
    } else if code == 2 {
        Some(LiveStatus::Loop)
    } else {
        None
    }
}

/// A raw status code that is none of the three known ones.
#[derive(Debug, Clone, Copy, PartialEq, Eq, Structural)]
pub struct UnknownStatusCode {
    pub code: i64,
}

impl LiveStatus {
    /// Decodes a raw status code; an unknown code is an error that carries it.
    pub fn decode(code: i64) -> (r: Result<LiveStatus, UnknownStatusCode>)
        ensures
            match status_of_code(code as int) {
                Some(s) => r == Ok::<LiveStatus, UnknownStatusCode>(s),
                None => r == Err::<LiveStatus, UnknownStatusCode>(UnknownStatusCode { code }),
            },
    {
        match code {
            0 => Ok(LiveStatus::Sleep),
            1 => Ok(LiveStatus::Living),
            2 => Ok(LiveStatus::Loop),
            _ => Err(UnknownStatusCode { code }),
        }
    }

    /// Decodes a raw status code given as a byte.
    pub fn from_u8(code: u8) -> (r: Option<LiveStatus>)
        ensures
            r == status_of_code(code as int),
    {
        match code {
            0 => Some(LiveStatus::Sleep),
            1 => Some(LiveStatus::Living),
            2 => Some(LiveStatus::Loop),
            _ => None,
        }
    }

    /// The raw code of this status, as a byte.
    pub fn to_u8(&self) -> (r: u8)
        ensures
            r as int == status_code(*self),
    {
        match self {
            LiveStatus::Sleep => 0,
            LiveStatus::Living => 1,
            LiveStatus::Loop => 2,
        }
    }

    /// The raw code of this status, as stored in a table column.
    pub fn to_i32(&self) -> (r: i32)
        ensures
            r as int == status_code(*self),
    {
        match self {
            LiveStatus::Sleep => 0,
            LiveStatus::Living => 1,
            LiveStatus::Loop => 2,
        }
    }
}

/// Decoding the raw code of any status gives that status back, and the codes of
/// distinct statuses are distinct.
pub proof fn lemma_status_code_round_trip(s: LiveStatus, t: LiveStatus)
    ensures
        status_of_code(status_code(s)) == Some(s),
        status_code(s) != status_code(t) <==> s != t,
{
}

#[verifier::external_type_specification]
#[verifier::external_body]
pub struct ExUrl(url::Url);

#[verifier::external_type_specification]
#[verifier::external_body]
pub struct ExParseError(url::ParseError);

/// Whether `url::Url::parse` accepts a text as an absolute URL.
pub uninterp spec fn url_parse_accepts(s: Seq<char>) -> bool;

/// Relies on `url::Url::parse`: it parses an absolute URL, and whether it
/// accepts the text depends on the text alone.
#[verifier::external_body]
fn parse_url(s: &str) -> (r: Result<url::Url, url::ParseError>)
    ensures
        r is Ok <==> url_parse_accepts(s@),
{
    url::Url::parse(s)
}

/// Relies on `url::Url::as_str`: the serialization of a URL, which always holds
/// the scheme followed by `:`, so is never empty.
#[verifier::external_body]
fn url_text(u: &url::Url) -> (r: String)
    ensures
        r@.len() > 0,
{
    u.as_str().to_string()
}

/// An optional URL field whose text is not an absolute URL.
#[derive(Debug)]
pub struct UrlFieldError {
    /// The text that was refused.
    pub text: String,
    /// Why the URL parser refused it.
    pub cause: url::ParseError,
}

/// The value of a non-empty URL field, given what the URL parser made of its
/// text: the parsed URL, or an error that carries the text and the parser's cause.
pub fn url_field_of(text: &str, parsed: Result<url::Url, url::ParseError>) -> (r: Result<
    Option<url::Url>,
    UrlFieldError,
>)
    ensures
        match parsed {
            Ok(u) => r == Ok::<Option<url::Url>, UrlFieldError>(Some(u)),
            Err(c) => r matches Err(e) && e.text@ == text@ && e.cause == c,
        },
{
    match parsed {
        Ok(u) => Ok(Some(u)),
        Err(cause) => Err(UrlFieldError { text: text.to_string(), cause }),
    }
}

/// Decodes an optional URL field, in which the empty text stands for no URL.
pub fn decode_url_field(s: &str) -> (r: Result<Option<url::Url>, UrlFieldError>)
    ensures
        s@.len() == 0 ==> r matches Ok(None),
        s@.len() > 0 ==> (r matches Ok(Some(_)) <==> url_parse_accepts(s@)),
        r matches Err(e) ==> e.text@ == s@,
{
    if s.is_empty() {
        return Ok(None);
    }
    url_field_of(s, parse_url(s))
}

/// Encodes an optional URL field: the URL's serialization, or the empty text
/// for no URL.
pub fn encode_url_field(u: &Option<url::Url>) -> (r: String)
    ensures
        r@.len() == 0 <==> u is None,
{
    match u {
        Some(url) => url_text(url),
        None => String::new(),
    }
}

/// The pieces of `s` between commas, in order; a text with `n` commas has
/// `n + 1` pieces.
pub open spec fn split_on_comma(s: Seq<char>) -> Seq<Seq<char>>
    decreases s.len(),
{
    if s.len() == 0 {
        seq![Seq::<char>::empty()]
    } else {
        let prev = split_on_comma(s.drop_last());
        if s.last() == ',' {
            prev.push(Seq::<char>::empty())
        } else {
            prev.update(prev.len() - 1, prev.last().push(s.last()))
        }
    }
}

/// The pieces joined with a comma between each two.
pub open spec fn join_with_comma(ts: Seq<Seq<char>>) -> Seq<char>
    decreases ts.len(),
{
    if ts.len() == 0 {
        Seq::empty()
    } else if ts.len() == 1 {
        ts[0]
    } else {
        join_with_comma(ts.drop_last()) + seq![','] + ts.last()
    }
}

/// The texts of a list of strings.
pub open spec fn texts(v: Seq<String>) -> Seq<Seq<char>> {
    v.map_values(|t: String| t@)
}

proof fn lemma_split_nonempty(s: Seq<char>)
    ensures
        split_on_comma(s).len() >= 1,
    decreases s.len(),
{
    if s.len() > 0 {
        lemma_split_nonempty(s.drop_last());
    }
}

/// Splits a tag field on commas: the field holds the tags joined with `,`.
pub fn split_tags(s: &str) -> (r: Vec<String>)
    ensures
        texts(r@) == split_on_comma(s@),
{
    let n = s.unicode_len();
    let mut r: Vec<String> = Vec::new();
    let mut start: usize = 0;
    let mut i: usize = 0;
    proof {
        assert(s@.subrange(0, 0) =~= Seq::<char>::empty());
        assert(texts(r@).push(s@.subrange(0, 0)) =~= seq![Seq::<char>::empty()]);
    }
    while i < n
        invariant
            n == s@.len(),
            start <= i <= n,
            split_on_comma(s@.subrange(0, i as int)) == texts(r@).push(
                s@.subrange(start as int, i as int),
            ),
        decreases n - i,
    {
        let c = s.get_char(i);
        let ghost pieces = texts(r@);
        proof {
            let next = s@.subrange(0, i + 1);
            assert(next.drop_last() =~= s@.subrange(0, i as int));
            assert(next.last() == c);
        }
        if c == ',' {
            let piece = String::from_str(s.substring_char(start, i));
            r.push(piece);
            proof {
                assert(texts(r@) =~= pieces.push(s@.subrange(start as int, i as int)));
                assert(s@.subrange(i + 1, i + 1) =~= Seq::<char>::empty());
            }
            start = i + 1;
        } else {
            proof {
                let prev = pieces.push(s@.subrange(start as int, i as int));
                assert(s@.subrange(start as int, i as int).push(c) =~= s@.subrange(
                    start as int,
                    i + 1,
                ));
                assert(prev.update(prev.len() - 1, prev.last().push(c)) =~= pieces.push(
                    s@.subrange(start as int, i + 1),
                ));
            }
        }
        i = i + 1;
    }
    let last = String::from_str(s.substring_char(start, n));
    let ghost pieces = texts(r@);
    r.push(last);
    proof {
        assert(s@.subrange(0, n as int) =~= s@);
        assert(texts(r@) =~= pieces.push(s@.subrange(start as int, n as int)));
    }
    r
}

/// Joins tags into a tag field, with `,` between each two.
pub fn join_tags(tags: &Vec<String>) -> (r: String)
    ensures
        r@ == join_with_comma(texts(tags@)),
{
    let mut r = String::new();
    let mut i: usize = 0;
    while i < tags.len()
        invariant
            i <= tags@.len(),
            r@ == join_with_comma(texts(tags@.subrange(0, i as int))),
        decreases tags@.len() - i,
    {
        let ghost before = texts(tags@.subrange(0, i as int));
        let ghost after = texts(tags@.subrange(0, i + 1));
        proof {
            assert(after.drop_last() =~= before);
            assert(after.last() == tags@[i as int]@);
            reveal_strlit(",");
        }
        if i > 0 {
            r.append(",");
        }
        r.append(tags[i].as_str());
        proof {
            if i == 0 {
                assert(after =~= seq![tags@[0]@]);
            }
        }
        i = i + 1;
    }
    proof {
        assert(tags@.subrange(0, tags@.len() as int) =~= tags@);
    }
    r
}

proof fn lemma_join_extend_last(ts: Seq<Seq<char>>, c: char)
    requires
        ts.len() >= 1,
    ensures
        join_with_comma(ts.update(ts.len() - 1, ts.last().push(c))) == join_with_comma(ts).push(c),
{
    let u = ts.update(ts.len() - 1, ts.last().push(c));
    if ts.len() == 1 {
        assert(u[0] == ts[0].push(c));
    } else {
        assert(u.drop_last() =~= ts.drop_last());
        assert(join_with_comma(ts.drop_last()) + seq![','] + ts.last().push(c) =~= (join_with_comma(
            ts.drop_last(),
        ) + seq![','] + ts.last()).push(c));
    }
}

/// Joining the pieces of a tag field gives the field back.
pub proof fn lemma_join_split(s: Seq<char>)
    ensures
        join_with_comma(split_on_comma(s)) == s,
    decreases s.len(),
{
    if s.len() == 0 {
        assert(join_with_comma(seq![Seq::<char>::empty()]) == Seq::<char>::empty());
    } else {
        let init = s.drop_last();
        lemma_join_split(init);
        lemma_split_nonempty(init);
        let prev = split_on_comma(init);
        if s.last() == ',' {
            let cur = prev.push(Seq::<char>::empty());
            assert(cur.drop_last() =~= prev);
            assert(join_with_comma(prev) + seq![','] + Seq::<char>::empty() =~= s);
        } else {
            lemma_join_extend_last(prev, s.last());
            assert(init.push(s.last()) =~= s);
        }
    }
}

/// A live room as the remote platform describes it.
#[derive(Debug)]
pub struct LiveRoomInfo {
    pub area_name: String,
    pub area_v2_name: String,
    /// The cover image chosen by the streamer, if any.
    pub cover_from_user: Option<url::Url>,
    /// The latest key frame of the stream, if any.
    pub keyframe: Option<url::Url>,
    pub live_status: LiveStatus,
    pub online: u64,
    /// The room's tags; the platform sends them joined with `,`.
    pub tag_name: Vec<String>,
    pub uname: String,
    pub uid: u64,
    pub title: String,
    pub room_id: u64,
}

/// The answer to one query for the status of several rooms: each room's
/// description under the key that the platform gave it.
#[derive(Debug)]
pub struct MultiLiveRoomStatus {
    pub code: i32,
    pub message: String,
    pub data: Vec<(String, LiveRoomInfo)>,
}

/// The raw statuses of the described rooms, in order; a room whose id does not
/// fit a store key is left out, since no record can have it.
pub open spec fn fetched_of(data: Seq<(String, LiveRoomInfo)>) -> Seq<FetchedStatus>
    decreases data.len(),
{
    if data.len() == 0 {
        Seq::empty()
    } else {
        let prev = fetched_of(data.drop_last());
        let info = data.last().1;
        if info.room_id <= i64::MAX {
            prev.push(
                FetchedStatus {
                    room_id: info.room_id as i64,
                    raw_status: status_code(info.live_status) as i64,
                },
            )
        } else {
            prev
        }
    }
}

impl MultiLiveRoomStatus {
    /// The described rooms, under the keys that the platform gave them.
    pub fn data(&self) -> (r: &Vec<(String, LiveRoomInfo)>)
        ensures
            r@ == self.data@,
    {
        &self.data
    }

    /// The raw statuses of the described rooms, as `fetched_of` says.
    pub fn statuses(&self) -> (r: Vec<FetchedStatus>)
        ensures
            r@ == fetched_of(self.data@),
    {
        let mut r: Vec<FetchedStatus> = Vec::new();
        let mut i: usize = 0;
        while i < self.data.len()
            invariant
                i <= self.data@.len(),
                r@ == fetched_of(self.data@.subrange(0, i as int)),
            decreases self.data@.len() - i,
        {
            let info = &self.data[i].1;
            proof {
                let next = self.data@.subrange(0, i + 1);
                assert(next.drop_last() =~= self.data@.subrange(0, i as int));
                assert(next.last() == self.data@[i as int]);
            }
            if info.room_id <= i64::MAX as u64 {
                r.push(
                    FetchedStatus {
                        room_id: info.room_id as i64,
                        raw_status: info.live_status.to_i32() as i64,
                    },
                );
            }
            i = i + 1;
        }
        proof {
            assert(self.data@.subrange(0, self.data@.len() as int) =~= self.data@);
        }
        r
    }
}

} // verus!
