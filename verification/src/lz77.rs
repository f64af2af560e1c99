use vstd::prelude::*;
use std::collections::HashMap;

use crate::CodecError;

verus! {

broadcast use vstd::std_specs::hash::group_hash_axioms;

/// How many candidate chain positions a match search examines.
const MAX_MATCH_NUM: usize = 1;

/// One parsed item: a literal byte, or a back-reference `(length, offset)`.
#[derive(Clone, Copy, Debug, PartialEq, Eq, Structural)]
pub enum LZ77Data {
    Literal(u8),
    Match(usize, usize),
}

/// The output of the parser: a sequence of items.
pub struct LZ77Encoded {
    data: Vec<LZ77Data>,
}

impl View for LZ77Encoded {
    type V = Seq<LZ77Data>;

    closed spec fn view(&self) -> Seq<LZ77Data> {
        self.data@
    }
}

/// `out` extended by one back-reference, expanded byte by byte so that an
/// overlapping copy (`off < len`) reads bytes it has just written.
pub open spec fn append_match(out: Seq<u8>, len: nat, off: nat) -> Seq<u8>
    decreases len,
{
    if len == 0 {
        out
    } else {
        append_match(out.push(out[out.len() - off]), (len - 1) as nat, off)
    }
}

/// `out` extended by one item.
pub open spec fn append_item(out: Seq<u8>, item: LZ77Data) -> Seq<u8> {
    match item {
        LZ77Data::Literal(b) => out.push(b),
        LZ77Data::Match(len, off) => append_match(out, len as nat, off as nat),
    }
}

/// The bytes an item sequence expands to.
pub open spec fn decode_items(items: Seq<LZ77Data>) -> Seq<u8>
    decreases items.len(),
{
    if items.len() == 0 {
        Seq::empty()
    } else {
        append_item(decode_items(items.drop_last()), items.last())
    }
}

/// A back-reference is valid when it points inside the output decoded so far.
pub open spec fn item_valid(out_len: nat, item: LZ77Data) -> bool {
    match item {
        LZ77Data::Literal(_) => true,
        LZ77Data::Match(len, off) => 1 <= off <= out_len,
    }
}

/// Every item points only at bytes already decoded when it is reached.
pub open spec fn items_valid(items: Seq<LZ77Data>) -> bool {
    forall|i: int|
        0 <= i < items.len() ==> item_valid(
            decode_items(items.take(i)).len(),
            #[trigger] items[i],
        )
}

/// The wire size of an item sequence when a literal takes one byte and a
/// back-reference takes `match_size_bytes`.
pub open spec fn encoded_size(items: Seq<LZ77Data>, match_size_bytes: nat) -> nat
    decreases items.len(),
{
    if items.len() == 0 {
        0
    } else {
        encoded_size(items.drop_last(), match_size_bytes) + match items.last() {
            LZ77Data::Literal(_) => 1nat,
            LZ77Data::Match(_, _) => match_size_bytes,
        }
    }
}

impl LZ77Encoded {
    /// Wraps an item sequence produced elsewhere, for expansion or
    /// measurement.
    pub fn from_items(data: Vec<LZ77Data>) -> (r: LZ77Encoded)
        ensures
            r@ == data@,
    {
        LZ77Encoded { data }
    }

    /// The parsed items, for callers that serialize or inspect them.
    pub fn items(&self) -> (r: &Vec<LZ77Data>)
        ensures
            r@ == self@,
    {
        &self.data
    }
}

/// The three bytes at position `p` packed into one dictionary key.
pub open spec fn key_at(s: Seq<u8>, p: int) -> u64
    recommends
        0 <= p,
        p + 3 <= s.len(),
{
    ((s[p] as int) * 0x10000 + (s[p + 1] as int) * 0x100 + (s[p + 2] as int)) as u64
}

proof fn lemma_key_at_injective(s: Seq<u8>, p: int, q: int)
    requires
        0 <= p,
        p + 3 <= s.len(),
        0 <= q,
        q + 3 <= s.len(),
        key_at(s, p) == key_at(s, q),
    ensures
        s[p] == s[q],
        s[p + 1] == s[q + 1],
        s[p + 2] == s[q + 2],
{
}


/// Length of the equal byte run starting at `sp` against `mp`, capped.
pub open spec fn spec_match_len(buf: Seq<u8>, sp: int, mp: int, cap: int) -> nat
    decreases cap,
{
    if cap <= 0 || sp < 0 || mp < 0 || sp >= buf.len() || mp >= buf.len() || buf[sp] != buf[mp] {
        0
    } else {
        1 + spec_match_len(buf, sp + 1, mp + 1, cap - 1)
    }
}

/// The greedy policy at `pos`: examine the one most recent position recorded
/// for this key; when it lies in the window and the run it yields meets the
/// minimum for both length and offset, emit that back-reference, otherwise
/// the literal.
pub open spec fn spec_find_item(
    head: Map<u64, usize>,
    buf: Seq<u8>,
    pos: int,
    window: usize,
    minm: usize,
    maxm: usize,
) -> LZ77Data {
    let key = key_at(buf, pos);
    let minp: int = if window > pos {
        0
    } else {
        pos - window
    };
    if head.contains_key(key) && head[key] >= minp {
        let q = head[key] as int;
        let l: int = spec_match_len(buf, pos + 3, q + 3, maxm - 3) as int + 3;
        let o: int = pos - q;
        if l >= minm && o >= minm {
            LZ77Data::Match(l as usize, o as usize)
        } else {
            LZ77Data::Literal(buf[pos])
        }
    } else {
        LZ77Data::Literal(buf[pos])
    }
}

/// The index after recording every position in `[p, end)` that still has a
/// full three-byte key.
pub open spec fn spec_record_range(head: Map<u64, usize>, buf: Seq<u8>, p: int, end: int) -> Map<
    u64,
    usize,
>
    decreases end - p,
{
    if p >= end {
        head
    } else {
        let h2 = if p + 3 <= buf.len() {
            head.insert(key_at(buf, p), p as usize)
        } else {
            head
        };
        spec_record_range(h2, buf, p + 1, end)
    }
}

/// One literal per remaining byte.
pub open spec fn spec_tail_literals(buf: Seq<u8>, pos: int) -> Seq<LZ77Data>
    decreases buf.len() - pos,
{
    if pos < 0 || pos >= buf.len() {
        Seq::empty()
    } else {
        seq![LZ77Data::Literal(buf[pos])] + spec_tail_literals(buf, pos + 1)
    }
}

/// The whole greedy parse from `pos` with index `head`: the item the policy
/// picks, then the parse of what follows it. The advance guard only makes the
/// recursion visibly well founded; the policy always meets it.
pub open spec fn spec_parse(
    head: Map<u64, usize>,
    buf: Seq<u8>,
    pos: int,
    window: usize,
    minm: usize,
    maxm: usize,
) -> Seq<LZ77Data>
    decreases buf.len() - pos,
{
    if !(0 <= pos && pos + 3 < buf.len()) {
        spec_tail_literals(buf, pos)
    } else {
        let item = spec_find_item(head, buf, pos, window, minm, maxm);
        let head1 = head.insert(key_at(buf, pos), pos as usize);
        match item {
            LZ77Data::Match(l, o) => {
                let nxt: int = if 1 <= l && pos + l <= buf.len() {
                    pos + l
                } else {
                    pos + 1
                };
                seq![item] + spec_parse(
                    spec_record_range(head1, buf, pos + 1, nxt),
                    buf,
                    nxt,
                    window,
                    minm,
                    maxm,
                )
            },
            LZ77Data::Literal(_) => seq![item] + spec_parse(head1, buf, pos + 1, window, minm, maxm),
        }
    }
}

/// Every back-reference respects the parser's structural bounds: lengths
/// between the minimum and maximum match, offsets between one and the window.
pub open spec fn items_bounded(
    items: Seq<LZ77Data>,
    minm: usize,
    maxm: usize,
    window: usize,
) -> bool {
    forall|i: int|
        0 <= i < items.len() ==> match #[trigger] items[i] {
            LZ77Data::Literal(_) => true,
            LZ77Data::Match(l, o) => minm <= l <= maxm && 1 <= o <= window,
        }
}

/// A hash-chain index over a borrowed buffer: `head_map` holds the most
/// recent position seen for each three-byte key, `next_map` links each
/// position to the previous one with the same key.
struct LZ77MatchFinder<'a> {
    buffer: &'a [u8],
    window_size: usize,
    min_match_len: usize,
    max_match_len: usize,
    head_map: HashMap<u64, usize>,
    next_map: HashMap<usize, usize>,
}

impl<'a> LZ77MatchFinder<'a> {
    /// All indexed positions lie below `bound`, start a full three-byte key,
    /// and every chain link preserves the key and strictly decreases.
    spec fn wf(&self, bound: int) -> bool {
        &&& self.min_match_len > 0
        &&& self.window_size > 0
        &&& self.max_match_len >= 3
        &&& forall|k: u64|
            #[trigger] self.head_map@.contains_key(k) ==> {
                let p = self.head_map@[k];
                &&& p < bound
                &&& p + 3 <= self.buffer@.len()
                &&& key_at(self.buffer@, p as int) == k
            }
        &&& forall|p: usize|
            #[trigger] self.next_map@.contains_key(p) ==> {
                let q = self.next_map@[p];
                &&& q < p
                &&& p + 3 <= self.buffer@.len()
                &&& q + 3 <= self.buffer@.len()
                &&& key_at(self.buffer@, q as int) == key_at(self.buffer@, p as int)
            }
    }

    fn new(buffer: &'a [u8], window_size: usize, min_match_len: usize, max_match_len: usize) -> (r:
        Self)
        requires
            min_match_len > 0,
            window_size > 0,
            max_match_len >= 3,
        ensures
            r.wf(0),
            r.buffer@ == buffer@,
            r.window_size == window_size,
            r.min_match_len == min_match_len,
            r.max_match_len == max_match_len,
    {
        LZ77MatchFinder {
            buffer,
            window_size,
            min_match_len,
            max_match_len,
            head_map: HashMap::new(),
            next_map: HashMap::new(),
        }
    }

    fn key_from_bytes(&self, pos: usize) -> (r: u64)
        requires
            pos + 3 <= self.buffer@.len(),
        ensures
            r == key_at(self.buffer@, pos as int),
    {
        (self.buffer[pos] as u64) * 0x10000 + (self.buffer[pos + 1] as u64) * 0x100 + (self.buffer[pos
            + 2] as u64)
    }

    fn insert(&mut self, pos: usize)
        requires
            old(self).wf(pos as int),
            pos + 3 <= old(self).buffer@.len(),
        ensures
            final(self).wf(pos + 1),
            final(self).buffer@ == old(self).buffer@,
            final(self).window_size == old(self).window_size,
            final(self).min_match_len == old(self).min_match_len,
            final(self).max_match_len == old(self).max_match_len,
            final(self).head_map@ == old(self).head_map@.insert(
                key_at(old(self).buffer@, pos as int),
                pos,
            ),
    {
        let key = self.key_from_bytes(pos);
        let head = match self.head_map.get(&key) {
            Some(h) => Some(*h),
            None => None,
        };
        if let Some(h) = head {
            self.next_map.insert(pos, h);
        }
        self.head_map.insert(key, pos);
    }

    /// Length of the equal run after the implied three-byte match, capped at
    /// `max_match_len - 3` and at the end of the buffer on either side.
    fn match_len(&self, source_pos: usize, match_pos: usize) -> (r: usize)
        requires
            self.max_match_len >= 3,
            source_pos <= self.buffer@.len(),
            match_pos <= self.buffer@.len(),
        ensures
            r == spec_match_len(
                self.buffer@,
                source_pos as int,
                match_pos as int,
                self.max_match_len - 3,
            ),
            r <= self.max_match_len - 3,
            source_pos + r <= self.buffer@.len(),
            match_pos + r <= self.buffer@.len(),
            forall|i: int|
                0 <= i < r ==> self.buffer@[source_pos + i] == #[trigger] self.buffer@[match_pos
                    + i],
            r < self.max_match_len - 3 ==> source_pos + r == self.buffer@.len() || match_pos + r
                == self.buffer@.len() || self.buffer@[source_pos + r] != self.buffer@[match_pos + r],
    {
        let ghost buf = self.buffer@;
        let cap: usize = self.max_match_len - 3;
        let blen: usize = self.buffer.len();
        let mut r: usize = 0;
        while r < cap && source_pos + r < blen && match_pos + r < blen
            && self.buffer[source_pos + r] == self.buffer[match_pos + r]
            invariant
                r <= cap,
                cap == self.max_match_len - 3,
                buf == self.buffer@,
                blen == self.buffer@.len(),
                source_pos + r <= self.buffer@.len(),
                match_pos + r <= self.buffer@.len(),
                spec_match_len(buf, source_pos as int, match_pos as int, cap as int)
                    == r + spec_match_len(
                    buf,
                    source_pos + r,
                    match_pos + r,
                    cap - r,
                ),
                forall|i: int|
                    0 <= i < r ==> self.buffer@[source_pos + i] == #[trigger] self.buffer@[
                        match_pos + i],
            decreases cap - r,
        {
            r = r + 1;
        }
        r
    }

    /// Looks for a match at `pos`, indexes `pos`, and returns exactly what
    /// the greedy policy picks there: a valid in-window back-reference that
    /// meets the minimum for both length and offset, or the literal at `pos`.
    fn find_match(&mut self, pos: usize) -> (r: LZ77Data)
        requires
            old(self).wf(pos as int),
            pos + 3 <= old(self).buffer@.len(),
        ensures
            final(self).wf(pos + 1),
            final(self).buffer@ == old(self).buffer@,
            final(self).window_size == old(self).window_size,
            final(self).min_match_len == old(self).min_match_len,
            final(self).max_match_len == old(self).max_match_len,
            final(self).head_map@ == old(self).head_map@.insert(
                key_at(old(self).buffer@, pos as int),
                pos,
            ),
            r == spec_find_item(
                old(self).head_map@,
                old(self).buffer@,
                pos as int,
                old(self).window_size,
                old(self).min_match_len,
                old(self).max_match_len,
            ),
            match r {
                LZ77Data::Literal(b) => b == old(self).buffer@[pos as int],
                LZ77Data::Match(len, off) => {
                    &&& old(self).min_match_len <= len <= old(self).max_match_len
                    &&& old(self).min_match_len <= off
                    &&& 1 <= off <= pos
                    &&& off <= old(self).window_size
                    &&& pos + len <= old(self).buffer@.len()
                    &&& forall|i: int|
                        0 <= i < len ==> old(self).buffer@[pos - off + i] == #[trigger] old(
                            self,
                        ).buffer@[pos + i]
                },
            },
    {
        let ghost buf = self.buffer@;
        let mut length: usize = 0;
        let mut offset: usize = 0;
        let min_pos: usize = if self.window_size > pos {
            0
        } else {
            pos - self.window_size
        };
        let key = self.key_from_bytes(pos);
        let mut cur: Option<usize> = match self.head_map.get(&key) {
            Some(h) => Some(*h),
            None => None,
        };
        let ghost head0 = self.head_map@;
        let mut match_num: usize = 0;
        let blen: usize = self.buffer.len();
        loop
            invariant
                self.wf(pos as int),
                self == old(self),
                head0 == self.head_map@,
                buf == self.buffer@,
                blen == buf.len(),
                match_num <= MAX_MATCH_NUM,
                pos + 3 <= buf.len(),
                min_pos == (if self.window_size > pos {
                    0int
                } else {
                    pos - self.window_size
                }),
                key == key_at(buf, pos as int),
                match cur {
                    Some(q) => {
                        &&& q < pos
                        &&& q + 3 <= buf.len()
                        &&& key_at(buf, q as int) == key
                    },
                    None => true,
                },
                match_num == 0 ==> length == 0 && cur == (if head0.contains_key(key) {
                    Some(head0[key])
                } else {
                    None::<usize>
                }),
                match_num == 1 ==> head0.contains_key(key) && head0[key] >= min_pos && length
                    == spec_match_len(buf, pos + 3, head0[key] + 3, self.max_match_len - 3) + 3
                    && offset == pos - head0[key],
                length == 0 ==> offset == 0,
                length > 0 ==> {
                    &&& 3 <= length <= self.max_match_len
                    &&& 1 <= offset <= pos
                    &&& offset <= self.window_size
                    &&& pos + length <= buf.len()
                    &&& forall|i: int|
                        0 <= i < length ==> buf[pos - offset + i] == #[trigger] buf[pos + i]
                },
            ensures
                self == old(self),
                head0 == self.head_map@,
                buf == self.buffer@,
                (head0.contains_key(key) && head0[key] >= min_pos) ==> length == spec_match_len(
                    buf,
                    pos + 3,
                    head0[key] + 3,
                    self.max_match_len - 3,
                ) + 3 && offset == pos - head0[key],
                !(head0.contains_key(key) && head0[key] >= min_pos) ==> length == 0 && offset == 0,
                length > 0 ==> {
                    &&& 3 <= length <= self.max_match_len
                    &&& 1 <= offset <= pos
                    &&& offset <= self.window_size
                    &&& pos + length <= buf.len()
                    &&& forall|i: int|
                        0 <= i < length ==> buf[pos - offset + i] == #[trigger] buf[pos + i]
                },
            decreases (match cur {
                Some(q) => q as int + 1,
                None => 0,
            }),
        {
            match cur {
                None => {
                    break ;
                },
                Some(q) => {
                    if q < min_pos {
                        break ;
                    }
                    if match_num >= MAX_MATCH_NUM {
                        break ;
                    }
                    match_num = match_num + 1;
                    let ml = self.match_len(pos + 3, q + 3);
                    let cand: usize = ml + 3;
                    if cand > length {
                        proof {
                            lemma_key_at_injective(buf, pos as int, q as int);
                            assert forall|i: int| 0 <= i < cand implies buf[pos - (pos - q) + i]
                                == #[trigger] buf[pos + i] by {
                                if i >= 3 {
                                    assert(buf[q + 3 + (i - 3)] == buf[pos + 3 + (i - 3)]);
                                }
                            }
                        }
                        length = cand;
                        offset = pos - q;
                    }
                    cur = match self.next_map.get(&q) {
                        Some(n) => Some(*n),
                        None => None,
                    };
                },
            }
        }
        self.insert(pos);
        if length >= self.min_match_len && offset >= self.min_match_len {
            LZ77Data::Match(length, offset)
        } else {
            let b = self.buffer[pos];
            LZ77Data::Literal(b)
        }
    }
}

/// One back-reference that copies already-present bytes forward reproduces
/// the source: if `l` bytes at `pos` repeat the bytes `o` places earlier,
/// expanding `Match(l, o)` after the first `pos` bytes yields the first
/// `pos + l` bytes.
proof fn lemma_append_match_copies(s: Seq<u8>, pos: int, l: int, o: int)
    requires
        1 <= o <= pos,
        0 <= l,
        pos + l <= s.len(),
        forall|i: int| 0 <= i < l ==> s[pos - o + i] == #[trigger] s[pos + i],
    ensures
        append_match(s.take(pos), l as nat, o as nat) == s.take(pos + l),
    decreases l,
{
    if l == 0 {
    } else {
        let p = s.take(pos);
        assert(p[pos - o] == s[pos - o]);
        assert(s[pos - o + 0] == s[pos + 0]);
        assert(p.push(s[pos as int]) =~= s.take(pos + 1));
        assert forall|i: int| 0 <= i < l - 1 implies s[pos + 1 - o + i] == #[trigger] s[pos + 1
            + i] by {
            assert(s[pos - o + (i + 1)] == s[pos + (i + 1)]);
        }
        lemma_append_match_copies(s, pos + 1, l - 1, o);
        assert(append_match(s.take(pos), l as nat, o as nat) == append_match(
            s.take(pos + 1),
            (l - 1) as nat,
            o as nat,
        ));
    }
}

/// Extending a valid prefix by one item that is valid at its position keeps
/// the whole prefix valid.
proof fn lemma_items_valid_snoc(items: Seq<LZ77Data>, i: int)
    requires
        0 <= i < items.len(),
        items_valid(items.take(i)),
        item_valid(decode_items(items.take(i)).len(), items[i]),
    ensures
        items_valid(items.take(i + 1)),
{
    assert forall|k: int| 0 <= k < i + 1 implies item_valid(
        decode_items(items.take(i + 1).take(k)).len(),
        #[trigger] items.take(i + 1)[k],
    ) by {
        assert(items.take(i + 1).take(k) =~= items.take(k));
        if k < i {
            assert(items.take(i).take(k) =~= items.take(k));
        } else {
            assert(items.take(k) =~= items.take(i));
        }
    }
}

/// Decoding one more item appends that item's expansion.
proof fn lemma_decode_items_snoc(items: Seq<LZ77Data>, i: int)
    requires
        0 <= i < items.len(),
    ensures
        decode_items(items.take(i + 1)) == append_item(decode_items(items.take(i)), items[i]),
{
    assert(items.take(i + 1).drop_last() =~= items.take(i));
    assert(items.take(i + 1).last() == items[i]);
}

/// Greedy left-to-right parse: emit the first adequate match at each
/// position, otherwise a literal. The items always expand back to `buffer`.
#[verifier::rlimit(50)]
pub fn lz77_compress_simple(
    buffer: &[u8],
    window_size: usize,
    min_match_len: usize,
    max_match_len: usize,
) -> (r: LZ77Encoded)
    requires
        min_match_len > 0,
        window_size > 0,
        max_match_len >= 3,
    ensures
        items_valid(r@),
        decode_items(r@) == buffer@,
        items_bounded(r@, min_match_len, max_match_len, window_size),
        r@ == spec_parse(
            Map::empty(),
            buffer@,
            0,
            window_size,
            min_match_len,
            max_match_len,
        ),
{
    let ghost buf = buffer@;
    let blen: usize = buffer.len();
    let mut matcher = LZ77MatchFinder::new(buffer, window_size, min_match_len, max_match_len);
    let mut data: Vec<LZ77Data> = Vec::new();
    let mut pos: usize = 0;
    let ghost full = spec_parse(Map::empty(), buf, 0, window_size, min_match_len, max_match_len);

    proof {
        assert(buf.take(0) =~= Seq::<u8>::empty());
        assert(matcher.head_map@ =~= Map::<u64, usize>::empty());
        assert(Seq::<LZ77Data>::empty() + spec_parse(
            matcher.head_map@,
            buf,
            0,
            window_size,
            min_match_len,
            max_match_len,
        ) =~= full);
    }
    while buffer.len() - pos > 3
        invariant
            matcher.wf(pos as int),
            matcher.buffer@ == buf,
            buf == buffer@,
            blen == buf.len(),
            matcher.window_size == window_size,
            matcher.min_match_len == min_match_len,
            matcher.max_match_len == max_match_len,
            min_match_len > 0,
            max_match_len >= 3,
            pos <= buf.len(),
            items_valid(data@),
            decode_items(data@) == buf.take(pos as int),
            items_bounded(data@, min_match_len, max_match_len, window_size),
            full == spec_parse(Map::empty(), buf, 0, window_size, min_match_len, max_match_len),
            full == data@ + spec_parse(
                matcher.head_map@,
                buf,
                pos as int,
                window_size,
                min_match_len,
                max_match_len,
            ),
        decreases buf.len() - pos,
    {
        let ghost head0 = matcher.head_map@;
        let d = matcher.find_match(pos);
        let ghost olddata = data@;
        data.push(d);
        proof {
            let n = olddata.len() as int;
            assert(data@.take(n) =~= olddata);
            assert(data@.take(n + 1) =~= data@);
            lemma_items_valid_snoc(data@, n);
            lemma_decode_items_snoc(data@, n);
            assert forall|i2: int| 0 <= i2 < data@.len() implies match #[trigger] data@[i2] {
                LZ77Data::Literal(_) => true,
                LZ77Data::Match(l2, o2) => min_match_len <= l2 <= max_match_len && 1 <= o2
                    <= window_size,
            } by {
                if i2 < n {
                    assert(data@[i2] == olddata[i2]);
                }
            }
        }
        match d {
            LZ77Data::Match(length, _) => {
                proof {
                    let off = d->Match_1;
                    lemma_append_match_copies(buf, pos as int, length as int, off as int);
                }
                let ghost head1 = matcher.head_map@;
                let mut p: usize = pos + 1;
                while p < pos + length
                    invariant
                        matcher.wf(p as int),
                        matcher.buffer@ == buf,
                        buf == buffer@,
                        blen == buf.len(),
                        matcher.window_size == window_size,
                        matcher.min_match_len == min_match_len,
                        matcher.max_match_len == max_match_len,
                        pos < p <= pos + length,
                        pos + length <= buf.len(),
                        spec_record_range(head1, buf, pos + 1, pos + length) == spec_record_range(
                            matcher.head_map@,
                            buf,
                            p as int,
                            pos + length,
                        ),
                    decreases pos + length - p,
                {
                    if buffer.len() - p >= 3 {
                        matcher.insert(p);
                    }
                    p = p + 1;
                }
                proof {
                    assert(spec_record_range(matcher.head_map@, buf, pos + length, pos + length)
                        == matcher.head_map@);
                    assert(olddata + (seq![d] + spec_parse(
                        matcher.head_map@,
                        buf,
                        pos + length,
                        window_size,
                        min_match_len,
                        max_match_len,
                    )) =~= data@ + spec_parse(
                        matcher.head_map@,
                        buf,
                        pos + length,
                        window_size,
                        min_match_len,
                        max_match_len,
                    ));
                }
                pos = pos + length;
            },
            LZ77Data::Literal(_) => {
                proof {
                    assert(buf.take(pos as int).push(buf[pos as int]) =~= buf.take(pos + 1));
                    assert(olddata + (seq![d] + spec_parse(
                        matcher.head_map@,
                        buf,
                        pos + 1,
                        window_size,
                        min_match_len,
                        max_match_len,
                    )) =~= data@ + spec_parse(
                        matcher.head_map@,
                        buf,
                        pos + 1,
                        window_size,
                        min_match_len,
                        max_match_len,
                    ));
                }
                pos = pos + 1;
            },
        }
    }
    while pos < buffer.len()
        invariant
            pos <= buf.len(),
            buf == buffer@,
            blen == buf.len(),
            items_valid(data@),
            decode_items(data@) == buf.take(pos as int),
            items_bounded(data@, min_match_len, max_match_len, window_size),
            full == spec_parse(Map::empty(), buf, 0, window_size, min_match_len, max_match_len),
            full == data@ + spec_tail_literals(buf, pos as int),
        decreases buf.len() - pos,
    {
        let b = buffer[pos];
        let ghost olddata = data@;
        data.push(LZ77Data::Literal(b));
        proof {
            let n = olddata.len() as int;
            assert(data@.take(n) =~= olddata);
            assert(data@.take(n + 1) =~= data@);
            lemma_items_valid_snoc(data@, n);
            lemma_decode_items_snoc(data@, n);
            assert(buf.take(pos as int).push(buf[pos as int]) =~= buf.take(pos + 1));
            assert forall|i2: int| 0 <= i2 < data@.len() implies match #[trigger] data@[i2] {
                LZ77Data::Literal(_) => true,
                LZ77Data::Match(l2, o2) => min_match_len <= l2 <= max_match_len && 1 <= o2
                    <= window_size,
            } by {
                if i2 < n {
                    assert(data@[i2] == olddata[i2]);
                }
            }
            assert(olddata + (seq![LZ77Data::Literal(buf[pos as int])] + spec_tail_literals(
                buf,
                pos + 1,
            )) =~= data@ + spec_tail_literals(buf, pos + 1));
        }
        pos = pos + 1;
    }
    proof {
        assert(buf.take(buf.len() as int) =~= buf);
        assert(spec_tail_literals(buf, blen as int) =~= Seq::<LZ77Data>::empty());
        assert(data@ + Seq::<LZ77Data>::empty() =~= data@);
    }
    LZ77Encoded { data }
}

/// Expands an item sequence in order. Returns the decoded bytes exactly when
/// every back-reference lies inside the output produced before it; reports a
/// corrupt stream otherwise.
#[verifier::rlimit(100)]
#[verifier::spinoff_prover]
pub fn lz77_decompress(encoded: LZ77Encoded) -> (r: Result<Vec<u8>, CodecError>)
    ensures
        items_valid(encoded@) ==> (r matches Ok(v) && v@ == decode_items(encoded@)),
        !items_valid(encoded@) ==> r == Result::<Vec<u8>, CodecError>::Err(
            CodecError::CorruptStream,
        ),
{
    let items = encoded.data;
    let mut out: Vec<u8> = Vec::new();
    let mut i: usize = 0;
    proof {
        assert(items@.take(0) =~= Seq::<LZ77Data>::empty());
    }
    while i < items.len()
        invariant
            i <= items@.len(),
            items@ == encoded@,
            items_valid(items@.take(i as int)),
            out@ == decode_items(items@.take(i as int)),
        decreases items@.len() - i,
    {
        let item = items[i];
        let ghost prefix = items@.take(i as int);
        proof {
            lemma_decode_items_snoc(items@, i as int);
        }
        match item {
            LZ77Data::Literal(b) => {
                out.push(b);
            },
            LZ77Data::Match(length, offset) => {
                if offset == 0 || offset > out.len() {
                    proof {
                        assert(!item_valid(decode_items(prefix).len(), items@[i as int]));
                        assert(!items_valid(items@)) by {
                            assert(items@.take(i as int) =~= prefix);
                        }
                    }
                    return Err(CodecError::CorruptStream);
                }
                let start_pos: usize = out.len() - offset;
                let ghost out0 = out@;
                let mut j: usize = 0;
                while j < length
                    invariant
                        j <= length,
                        offset >= 1,
                        start_pos + offset == out0.len(),
                        out@.len() == out0.len() + j,
                        append_match(out@, (length - j) as nat, offset as nat) == append_match(
                            out0,
                            length as nat,
                            offset as nat,
                        ),
                        forall|k: int| 0 <= k < out0.len() ==> out@[k] == out0[k],
                    decreases length - j,
                {
                    let idx: usize = out.len() - offset;
                    proof {
                        assert(idx == start_pos + j);
                    }
                    let b = out[idx];
                    out.push(b);
                    j = j + 1;
                }
            },
        }
        proof {
            lemma_items_valid_snoc(items@, i as int);
        }
        i = i + 1;
    }
    proof {
        assert(items@.take(items@.len() as int) =~= items@);
    }
    Ok(out)
}

/// Counts the bytes an item sequence occupies when a literal takes one byte
/// and a back-reference takes `match_size_bytes`.
pub fn encoded_byte_num(encoded: &LZ77Encoded, match_size_bytes: usize) -> (r: usize)
    requires
        encoded_size(encoded@, match_size_bytes as nat) <= usize::MAX,
    ensures
        r == encoded_size(encoded@, match_size_bytes as nat),
{
    let mut total: usize = 0;
    let mut i: usize = 0;
    proof {
        assert(encoded@.take(0) =~= Seq::<LZ77Data>::empty());
    }
    while i < encoded.data.len()
        invariant
            i <= encoded@.len(),
            total == encoded_size(encoded@.take(i as int), match_size_bytes as nat),
            encoded_size(encoded@, match_size_bytes as nat) <= usize::MAX,
        decreases encoded@.len() - i,
    {
        proof {
            assert(encoded@.take(i + 1).drop_last() =~= encoded@.take(i as int));
            lemma_encoded_size_prefix(encoded@, i + 1, match_size_bytes as nat);
        }
        total = total + (match encoded.data[i] {
            LZ77Data::Literal(_) => 1,
            LZ77Data::Match(_, _) => match_size_bytes,
        });
        i = i + 1;
    }
    proof {
        assert(encoded@.take(encoded@.len() as int) =~= encoded@);
    }
    total
}

/// The wire size of a prefix never exceeds the wire size of the whole.
proof fn lemma_encoded_size_prefix(items: Seq<LZ77Data>, n: int, msb: nat)
    requires
        0 <= n <= items.len(),
    ensures
        encoded_size(items.take(n), msb) <= encoded_size(items, msb),
    decreases items.len() - n,
{
    if n == items.len() {
        assert(items.take(n) =~= items);
    } else {
        lemma_encoded_size_prefix(items, n + 1, msb);
        assert(items.take(n + 1).drop_last() =~= items.take(n));
    }
}

} // verus!
