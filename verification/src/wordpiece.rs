//! WordPiece encoding (greedy longest match) over a `vocab.txt` vocabulary,
//! for BERT models whose words are segmented beforehand.

use vstd::prelude::*;

use crate::strings::{chars_of, str_eq, string_of, sub_chars, views};

verus! {

/// The id of `piece`: the number of the last vocabulary line equal to it.
pub open spec fn lookup(lines: Seq<Seq<char>>, piece: Seq<char>) -> Option<int>
    decreases lines.len(),
{
    if lines.len() == 0 {
        None
    } else if lines.last() == piece {
        Some(lines.len() - 1)
    } else {
        lookup(lines.drop_last(), piece)
    }
}

/// The candidate piece `word[start..end]`, marked `##` when it continues a
/// word.
pub open spec fn piece_at(word: Seq<char>, start: int, end: int) -> Seq<char> {
    if start > 0 {
        "##"@ + word.subrange(start, end)
    } else {
        word.subrange(start, end)
    }
}

/// The longest piece starting at `start` and ending at or before `end` that
/// the vocabulary knows: its end and id.
pub open spec fn longest_match(lines: Seq<Seq<char>>, word: Seq<char>, start: int, end: int) -> Option<
    (int, int),
>
    decreases end - start,
{
    if end <= start {
        None
    } else {
        match lookup(lines, piece_at(word, start, end)) {
            Some(id) => Some((end, id)),
            None => longest_match(lines, word, start, end - 1),
        }
    }
}

/// The ids of `word[start..]` split greedily into known pieces, or `None`
/// when some position has no known piece.
pub open spec fn pieces_from(lines: Seq<Seq<char>>, word: Seq<char>, start: int) -> Option<Seq<int>>
    decreases word.len() - start,
{
    if start < 0 || start >= word.len() {
        Some(seq![])
    } else {
        match longest_match(lines, word, start, word.len() as int) {
            Some((end, id)) => if start < end <= word.len() {
                match pieces_from(lines, word, end) {
                    Some(rest) => Some(seq![id] + rest),
                    None => None,
                }
            } else {
                None
            },
            None => None,
        }
    }
}

/// The ids of one word: its pieces, or the unknown id alone.
pub open spec fn wordpiece_ids(lines: Seq<Seq<char>>, unk: int, word: Seq<char>) -> Seq<int> {
    match pieces_from(lines, word, 0) {
        Some(ids) => ids,
        None => seq![unk],
    }
}

/// The ids of a pre-segmented text: every word's ids, in order.
pub open spec fn text_ids(lines: Seq<Seq<char>>, unk: int, words: Seq<Seq<char>>) -> Seq<int>
    decreases words.len(),
{
    if words.len() == 0 {
        seq![]
    } else {
        text_ids(lines, unk, words.drop_last()) + wordpiece_ids(lines, unk, words.last())
    }
}

pub open spec fn ids_of(v: Seq<u32>) -> Seq<int> {
    v.map_values(|x: u32| x as int)
}

/// A WordPiece vocabulary: the lines of `vocab.txt` and the ids of the
/// unknown, classification and separator tokens.
pub struct WordPieceVocab {
    pub lines: Vec<String>,
    pub unk_id: u32,
    pub cls_id: u32,
    pub sep_id: u32,
}

impl WordPieceVocab {
    pub open spec fn spec_lines(&self) -> Seq<Seq<char>> {
        views(self.lines@)
    }

    pub open spec fn wf(&self) -> bool {
        self.spec_lines().len() <= u32::MAX
    }

    /// The vocabulary of the given lines; `[UNK]`, `[CLS]` and `[SEP]` take
    /// their line numbers, or 1, 2 and 3 when absent.
    pub fn from_lines(lines: Vec<String>) -> (r: Self)
        requires
            lines@.len() <= u32::MAX,
        ensures
            r.wf(),
            r.spec_lines() == views(lines@),
            r.unk_id == (match lookup(views(lines@), "[UNK]"@) {
                Some(i) => i,
                None => 1,
            }),
            r.cls_id == (match lookup(views(lines@), "[CLS]"@) {
                Some(i) => i,
                None => 2,
            }),
            r.sep_id == (match lookup(views(lines@), "[SEP]"@) {
                Some(i) => i,
                None => 3,
            }),
    {
        let unk = match lookup_exec(&lines, &chars_of("[UNK]")) {
            Some(i) => i,
            None => 1,
        };
        let cls = match lookup_exec(&lines, &chars_of("[CLS]")) {
            Some(i) => i,
            None => 2,
        };
        let sep = match lookup_exec(&lines, &chars_of("[SEP]")) {
            Some(i) => i,
            None => 3,
        };
        WordPieceVocab { lines, unk_id: unk, cls_id: cls, sep_id: sep }
    }

    /// Append the ids of `word` to `out`: its greedy longest-match pieces,
    /// or the unknown id alone when some position has no known piece.
    pub fn wordpiece(&self, word: &str, out: &mut Vec<u32>)
        requires
            self.wf(),
        ensures
            ids_of(final(out)@) == ids_of(old(out)@) + wordpiece_ids(
                self.spec_lines(),
                self.unk_id as int,
                word@,
            ),
    {
        let ghost lines = self.spec_lines();
        let chars = chars_of(word);
        let n = chars.len();
        let mut start: usize = 0;
        let mut sub: Vec<u32> = Vec::new();
        while start < n
            invariant
                start <= n == chars@.len(),
                chars@ == word@,
                out@ == old(out)@,
                lines == self.spec_lines(),
                self.wf(),
                pieces_from(lines, word@, 0) == match pieces_from(lines, word@, start as int) {
                    Some(rest) => Some(ids_of(sub@) + rest),
                    None => None,
                },
            decreases n - start,
        {
            match self.longest_piece(&chars, start) {
                Some((end, id)) => {
                    let ghost rest = pieces_from(lines, word@, end as int);
                    let ghost before = sub@;
                    sub.push(id);
                    assert(ids_of(sub@) =~= ids_of(before).push(id as int));
                    proof {
                        match rest {
                            Some(r) => {
                                assert(ids_of(before) + (seq![id as int] + r) =~= ids_of(sub@) + r);
                            },
                            None => {},
                        }
                    }
                    start = end;
                },
                None => {
                    assert(pieces_from(lines, word@, start as int) is None);
                    out.push(self.unk_id);
                    assert(ids_of(out@) =~= ids_of(old(out)@) + seq![self.unk_id as int]);
                    return;
                },
            }
        }
        assert(pieces_from(lines, word@, n as int) == Some(Seq::<int>::empty()));
        assert(ids_of(sub@) + Seq::<int>::empty() =~= ids_of(sub@));
        let ghost before = out@;
        let mut k: usize = 0;
        while k < sub.len()
            invariant
                k <= sub.len(),
                before == old(out)@,
                ids_of(out@) == ids_of(before) + ids_of(sub@).take(k as int),
            decreases sub.len() - k,
        {
            let ghost o = out@;
            out.push(sub[k]);
            assert(ids_of(out@) =~= ids_of(o).push(sub@[k as int] as int));
            assert(ids_of(sub@).take(k + 1) =~= ids_of(sub@).take(k as int).push(
                sub@[k as int] as int,
            ));
            k = k + 1;
            assert(ids_of(out@) =~= ids_of(before) + ids_of(sub@).take(k as int));
        }
        assert(ids_of(sub@).take(sub.len() as int) =~= ids_of(sub@));
    }

    /// The longest known piece of `chars` starting at `start`: its end and
    /// id.
    fn longest_piece(&self, chars: &Vec<char>, start: usize) -> (r: Option<(usize, u32)>)
        requires
            start < chars.len(),
            self.wf(),
        ensures
            match longest_match(self.spec_lines(), chars@, start as int, chars.len() as int) {
                Some((e, id)) => r matches Some((re, rid)) && re == e && rid == id && start < re
                    <= chars.len(),
                None => r is None,
            },
    {
        let ghost lines = self.spec_lines();
        let mut end = chars.len();
        while start < end
            invariant
                start < chars.len(),
                start <= end <= chars.len(),
                lines == self.spec_lines(),
                self.wf(),
                longest_match(lines, chars@, start as int, chars.len() as int) == longest_match(
                    lines,
                    chars@,
                    start as int,
                    end as int,
                ),
            decreases end,
        {
            let body = sub_chars(chars, start, end);
            let piece = if start > 0 {
                let mut p = chars_of("##");
                let mut q: usize = 0;
                let ghost p0 = p@;
                while q < body.len()
                    invariant
                        q <= body.len(),
                        p@ == p0 + body@.take(q as int),
                    decreases body.len() - q,
                {
                    p.push(body[q]);
                    q = q + 1;
                    assert(p@ =~= p0 + body@.take(q as int));
                }
                assert(body@.take(body.len() as int) =~= body@);
                p
            } else {
                body
            };
            assert(piece@ == piece_at(chars@, start as int, end as int));
            match lookup_exec(&self.lines, &piece) {
                Some(id) => {
                    return Some((end, id));
                },
                None => {},
            }
            end = end - 1;
        }
        None
    }

    /// Encode a pre-segmented text (and optionally a second one) as BERT
    /// input: `[CLS] a [SEP]` (`b [SEP]`), with an all-ones attention mask
    /// and segment ids 0 for the first part and 1 for the second.
    pub fn encode(&self, words: &Vec<String>, pair: Option<&Vec<String>>) -> (r: (
        Vec<u32>,
        Vec<u32>,
        Vec<u32>,
    ))
        requires
            self.wf(),
        ensures
            ids_of(r.0@) == encoded_ids(
                self.spec_lines(),
                self.unk_id as int,
                self.cls_id as int,
                self.sep_id as int,
                views(words@),
                match pair {
                    Some(p) => Some(views(p@)),
                    None => None,
                },
            ),
            r.1@.len() == r.0@.len(),
            forall|i: int| 0 <= i < r.1@.len() ==> #[trigger] r.1@[i] == 1,
            r.2@.len() == r.0@.len(),
            forall|i: int|
                0 <= i < r.2@.len() ==> #[trigger] r.2@[i] == (if i < first_segment_len(
                    self.spec_lines(),
                    self.unk_id as int,
                    views(words@),
                ) {
                    0u32
                } else {
                    1u32
                }),
    {
        let ghost lines = self.spec_lines();
        let mut ids: Vec<u32> = Vec::new();
        ids.push(self.cls_id);
        let a = self.text_ids_exec(words);
        let mut k: usize = 0;
        let ghost base = ids@;
        while k < a.len()
            invariant
                k <= a.len(),
                ids@ == base + a@.take(k as int),
            decreases a.len() - k,
        {
            ids.push(a[k]);
            k = k + 1;
            assert(ids@ =~= base + a@.take(k as int));
        }
        assert(a@.take(a.len() as int) =~= a@);
        ids.push(self.sep_id);
        let first = ids.len();
        let ghost first_part = ids@;
        assert(ids_of(first_part) =~= seq![self.cls_id as int] + text_ids(
            lines,
            self.unk_id as int,
            views(words@),
        ) + seq![self.sep_id as int]);
        match pair {
            Some(p) => {
                let b = self.text_ids_exec(p);
                let mut k: usize = 0;
                while k < b.len()
                    invariant
                        k <= b.len(),
                        ids@ == first_part + b@.take(k as int),
                    decreases b.len() - k,
                {
                    ids.push(b[k]);
                    k = k + 1;
                    assert(ids@ =~= first_part + b@.take(k as int));
                }
                assert(b@.take(b.len() as int) =~= b@);
                ids.push(self.sep_id);
                assert(ids_of(ids@) =~= ids_of(first_part) + text_ids(
                    lines,
                    self.unk_id as int,
                    views(p@),
                ) + seq![self.sep_id as int]);
            },
            None => {},
        }
        let mut mask: Vec<u32> = Vec::new();
        let mut types: Vec<u32> = Vec::new();
        let mut i: usize = 0;
        while i < ids.len()
            invariant
                i <= ids.len(),
                mask@.len() == i,
                types@.len() == i,
                forall|j: int| 0 <= j < i ==> #[trigger] mask@[j] == 1,
                forall|j: int|
                    0 <= j < i ==> #[trigger] types@[j] == (if j < first {
                        0u32
                    } else {
                        1u32
                    }),
            decreases ids.len() - i,
        {
            mask.push(1);
            types.push(if i < first {
                0
            } else {
                1
            });
            i = i + 1;
        }
        (ids, mask, types)
    }

    /// The ids of a pre-segmented text.
    fn text_ids_exec(&self, words: &Vec<String>) -> (r: Vec<u32>)
        requires
            self.wf(),
        ensures
            ids_of(r@) == text_ids(self.spec_lines(), self.unk_id as int, views(words@)),
    {
        let mut out: Vec<u32> = Vec::new();
        let mut k: usize = 0;
        while k < words.len()
            invariant
                k <= words.len(),
                self.wf(),
                ids_of(out@) == text_ids(self.spec_lines(), self.unk_id as int, views(words@).take(
                    k as int,
                )),
            decreases words.len() - k,
        {
            assert(views(words@).take(k + 1).drop_last() =~= views(words@).take(k as int));
            assert(views(words@).take(k + 1).last() == words@[k as int]@);
            self.wordpiece(words[k].as_str(), &mut out);
            k = k + 1;
        }
        assert(views(words@).take(words.len() as int) =~= views(words@));
        out
    }
}

/// The input ids of `[CLS] a [SEP]` (`b [SEP]`).
pub open spec fn encoded_ids(
    lines: Seq<Seq<char>>,
    unk: int,
    cls: int,
    sep: int,
    a: Seq<Seq<char>>,
    b: Option<Seq<Seq<char>>>,
) -> Seq<int> {
    let first = seq![cls] + text_ids(lines, unk, a) + seq![sep];
    match b {
        Some(words) => first + text_ids(lines, unk, words) + seq![sep],
        None => first,
    }
}

/// Length of the first segment, `[CLS] a [SEP]`.
pub open spec fn first_segment_len(lines: Seq<Seq<char>>, unk: int, a: Seq<Seq<char>>) -> int {
    text_ids(lines, unk, a).len() as int + 2
}

/// `lookup(views(lines@), piece@)`.
fn lookup_exec(lines: &Vec<String>, piece: &Vec<char>) -> (r: Option<u32>)
    requires
        lines@.len() <= u32::MAX,
    ensures
        match lookup(views(lines@), piece@) {
            Some(i) => r == Some(i as u32) && 0 <= i < lines@.len(),
            None => r is None,
        },
{
    let s = string_of(piece);
    let mut k = lines.len();
    assert(views(lines@).take(lines.len() as int) =~= views(lines@));
    while k > 0
        invariant
            k <= lines.len() <= u32::MAX,
            s@ == piece@,
            lookup(views(lines@), piece@) == lookup(views(lines@).take(k as int), piece@),
        decreases k,
    {
        assert(views(lines@).take(k as int).drop_last() =~= views(lines@).take(k - 1));
        assert(views(lines@).take(k as int).last() == lines@[k - 1]@);
        if str_eq(lines[k - 1].as_str(), s.as_str()) {
            assert(lookup(views(lines@).take(k as int), piece@) == Some(k - 1));
            return Some((k - 1) as u32);
        }
        k = k - 1;
    }
    None
}

proof fn lemma_lookup_found(lines: Seq<Seq<char>>, piece: Seq<char>)
    ensures
        lookup(lines, piece) matches Some(i) ==> 0 <= i < lines.len() && lines[i] == piece,
    decreases lines.len(),
{
    if lines.len() > 0 && lines.last() != piece {
        lemma_lookup_found(lines.drop_last(), piece);
    }
}

proof fn lemma_longest_match_found(lines: Seq<Seq<char>>, word: Seq<char>, start: int, end: int)
    ensures
        longest_match(lines, word, start, end) matches Some((e, id)) ==> start < e <= end && 0
            <= id < lines.len() && lines[id] == piece_at(word, start, e),
    decreases end - start,
{
    if end > start {
        lemma_lookup_found(lines, piece_at(word, start, end));
        if lookup(lines, piece_at(word, start, end)) is None {
            lemma_longest_match_found(lines, word, start, end - 1);
        }
    }
}

proof fn lemma_pieces_known(lines: Seq<Seq<char>>, word: Seq<char>, start: int)
    ensures
        pieces_from(lines, word, start) matches Some(ids) ==> forall|k: int|
            0 <= k < ids.len() ==> 0 <= #[trigger] ids[k] < lines.len(),
    decreases word.len() - start,
{
    if 0 <= start < word.len() {
        lemma_longest_match_found(lines, word, start, word.len() as int);
        match longest_match(lines, word, start, word.len() as int) {
            Some((end, id)) => {
                if start < end <= word.len() {
                    lemma_pieces_known(lines, word, end);
                    match pieces_from(lines, word, end) {
                        Some(rest) => {
                            let ids = seq![id] + rest;
                            assert forall|k: int| 0 <= k < ids.len() implies 0 <= #[trigger] ids[k]
                                < lines.len() by {
                                if k > 0 {
                                    assert(ids[k] == rest[k - 1]);
                                }
                            }
                        },
                        None => {},
                    }
                }
            },
            None => {},
        }
    }
}

/// Every id WordPiece gives a word is the number of a vocabulary line
/// (spelling the matched piece) or the unknown id.
pub proof fn lemma_wordpiece_ids_known(lines: Seq<Seq<char>>, unk: int, word: Seq<char>)
    ensures
        forall|k: int|
            0 <= k < wordpiece_ids(lines, unk, word).len() ==> #[trigger] wordpiece_ids(
                lines,
                unk,
                word,
            )[k] == unk || 0 <= wordpiece_ids(lines, unk, word)[k] < lines.len(),
{
    lemma_pieces_known(lines, word, 0);
}

} // verus!
