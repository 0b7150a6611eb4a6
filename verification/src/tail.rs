//! Paging through a text from its end.
//!
//! A [`TailScanner`] is handed the text in chunks, the last chunk first,
//! and finds the lines in them, the last line first. It never holds more
//! than the lines it was asked for and the one it is in the middle of, so
//! a large file can be paged through without reading all of it.

use crate::error::LogError;
use crate::lines::{lemma_text_lines_cons, text_lines, LINE_FEED};
use crate::text::string_from_utf8;
use vstd::prelude::*;
use vstd::utf8::*;

verus! {

/// How many bytes a scan asks for at a time.
pub const TAIL_BUFFER_SIZE: usize = 1024;

/// The smaller of two numbers.
pub open spec fn least(a: nat, b: nat) -> nat {
    if a <= b {
        a
    } else {
        b
    }
}

/// The lines of `source`, the last line first.
pub open spec fn lines_from_end(source: Seq<u8>) -> Seq<Seq<u8>> {
    text_lines(source).reverse()
}

/// The line that a scan is in the middle of once it has read `scanned`,
/// the end of a text: what stands before the first line feed.
pub open spec fn partial_line(scanned: Seq<u8>) -> Seq<u8> {
    if scanned.len() == 0 {
        Seq::empty()
    } else {
        text_lines(scanned)[0]
    }
}

/// The lines that a scan knows to be whole once it has read `scanned`,
/// the end of a text: all but the first.
pub open spec fn whole_lines(scanned: Seq<u8>) -> Seq<Seq<u8>> {
    if scanned.len() == 0 {
        Seq::empty()
    } else {
        text_lines(scanned).skip(1)
    }
}

/// The lines that a scan has found, the last line first, once it has read
/// `scanned`. At the start of the text the first line is whole too.
pub open spec fn found_lines(scanned: Seq<u8>, at_start: bool) -> Seq<Seq<u8>> {
    if at_start {
        text_lines(scanned).reverse()
    } else {
        whole_lines(scanned).reverse()
    }
}

/// Whether every one of `lines` is UTF-8.
pub open spec fn all_utf8(lines: Seq<Seq<u8>>) -> bool {
    forall|i: int| 0 <= i < lines.len() ==> valid_utf8(#[trigger] lines[i])
}

/// The text of each of `lines`.
pub open spec fn decode_all(lines: Seq<Seq<u8>>) -> Seq<Seq<char>> {
    Seq::new(lines.len(), |i: int| decode_utf8(lines[i]))
}

/// What each of `strings` holds.
pub open spec fn strings_of(strings: Seq<String>) -> Seq<Seq<char>> {
    Seq::new(strings.len(), |i: int| strings[i]@)
}

/// One page of `lines`: `limit` lines after the first `offset`, or as many
/// as there are. Every line up to the end of the page must be UTF-8, the
/// skipped ones too. A page of no lines asks for nothing.
pub open spec fn page_of(lines: Seq<Seq<u8>>, limit: nat, offset: nat) -> Result<
    Seq<Seq<char>>,
    LogError,
> {
    let passed = lines.take(least(lines.len(), offset + limit) as int);
    if limit == 0 {
        Ok(Seq::empty())
    } else if all_utf8(passed) {
        Ok(decode_all(passed.skip(least(passed.len(), offset) as int)))
    } else {
        Err(LogError::InvalidEncoding)
    }
}

/// Whether a page was found and is not full.
pub open spec fn page_is_short(page: Result<Seq<Seq<char>>, LogError>, limit: nat) -> bool {
    page matches Ok(lines) && lines.len() < limit
}

/// The page that a scan from the end of `source` gives: the last line
/// first, `offset` lines skipped, at most `limit` lines long.
pub open spec fn tail_lines(source: Seq<u8>, limit: nat, offset: nat) -> Result<
    Seq<Seq<char>>,
    LogError,
> {
    page_of(lines_from_end(source), limit, offset)
}

/// A page holds the lines from `offset` on, in order, and as many of them
/// as there are, up to `limit`.
pub proof fn lemma_page_lines(lines: Seq<Seq<u8>>, limit: nat, offset: nat)
    requires
        page_of(lines, limit, offset) is Ok,
    ensures
        ({
            let page = page_of(lines, limit, offset)->Ok_0;
            let start = least(lines.len(), offset) as int;
            let end = least(lines.len(), offset + limit) as int;
            &&& page.len() == end - start
            &&& page.len() <= limit
            &&& limit > 0 ==> all_utf8(lines.subrange(start, end))
            &&& limit > 0 ==> page == decode_all(lines.subrange(start, end))
        }),
{
    let page = page_of(lines, limit, offset)->Ok_0;
    let start = least(lines.len(), offset) as int;
    let end = least(lines.len(), offset + limit) as int;
    if limit > 0 {
        let passed = lines.take(end);
        assert(passed.skip(start) =~= lines.subrange(start, end));
        assert forall|i: int| 0 <= i < end - start implies valid_utf8(
            #[trigger] lines.subrange(start, end)[i],
        ) by {
            assert(passed[start + i] == lines[start + i]);
        }
    } else {
        assert(page.len() == 0);
    }
}

/// A text that ends in `end` has all the whole lines of `end` as its last
/// lines. What is returned are the lines before them.
pub proof fn lemma_text_lines_end(start: Seq<u8>, end: Seq<u8>) -> (head: Seq<Seq<u8>>)
    requires
        end.len() > 0,
    ensures
        head.len() > 0,
        text_lines(start + end) == head + whole_lines(end),
    decreases start.len(),
{
    if start.len() == 0 {
        assert(start + end =~= end);
        let head = seq![text_lines(end)[0]];
        assert(text_lines(end) =~= head + whole_lines(end));
        head
    } else {
        let byte = start[0];
        let rest = start.drop_first() + end;
        assert(start + end =~= seq![byte] + rest);
        let inner = lemma_text_lines_end(start.drop_first(), end);
        lemma_text_lines_cons(byte, rest);
        if byte == LINE_FEED {
            let head = seq![Seq::<u8>::empty()] + inner;
            assert(text_lines(start + end) =~= head + whole_lines(end));
            head
        } else {
            let head = inner.update(0, seq![byte] + inner[0]);
            assert(text_lines(start + end) =~= head + whole_lines(end));
            head
        }
    }
}

/// The lines that a scan has found after reading any end of `source` are
/// the first of the lines of `source`, counted from its end.
pub proof fn lemma_found_lines_are_first(source: Seq<u8>, position: int)
    requires
        0 <= position <= source.len(),
    ensures
        ({
            let found = found_lines(source.skip(position), position == 0);
            let all = lines_from_end(source);
            &&& found.len() <= all.len()
            &&& found == all.take(found.len() as int)
            &&& position == 0 ==> found == all
        }),
{
    let end = source.skip(position);
    let all = lines_from_end(source);
    if position == 0 {
        assert(end =~= source);
        assert(all.take(all.len() as int) =~= all);
    } else if end.len() == 0 {
        assert(all.take(0) =~= Seq::<Seq<u8>>::empty());
    } else {
        assert(source.take(position) + end =~= source);
        let head = lemma_text_lines_end(source.take(position), end);
        let whole = whole_lines(end);
        assert((head + whole).reverse().take(whole.len() as int) =~= whole.reverse());
    }
}

/// What a scan has found so far decides the page as soon as it fails or
/// the page is full.
pub proof fn lemma_page_of_first_lines(
    found: Seq<Seq<u8>>,
    all: Seq<Seq<u8>>,
    limit: nat,
    offset: nat,
)
    requires
        found.len() <= all.len(),
        found == all.take(found.len() as int),
    ensures
        page_of(found, limit, offset) is Err ==> page_of(all, limit, offset) == page_of(
            found,
            limit,
            offset,
        ),
        page_of(found, limit, offset) is Ok && page_of(found, limit, offset)->Ok_0.len() == limit
            ==> page_of(all, limit, offset) == page_of(found, limit, offset),
{
    let few = found.take(least(found.len(), offset + limit) as int);
    let many = all.take(least(all.len(), offset + limit) as int);
    if limit > 0 {
        if page_of(found, limit, offset) is Err {
            let i = choose|i: int| 0 <= i < few.len() && !valid_utf8(#[trigger] few[i]);
            assert(many[i] == few[i]);
        } else if page_of(found, limit, offset)->Ok_0.len() == limit {
            assert(few.len() == offset + limit);
            assert(many =~= few);
        }
    }
}

/// What a scan has found when it has read all but the first `position`
/// bytes of `source` decides the page of `source` as soon as it fails,
/// the page is full, or the start of `source` is reached.
pub proof fn lemma_scan_decides_page(source: Seq<u8>, position: int, limit: nat, offset: nat)
    requires
        0 <= position <= source.len(),
    ensures
        ({
            let page = page_of(found_lines(source.skip(position), position == 0), limit, offset);
            &&& page is Err ==> tail_lines(source, limit, offset) == page
            &&& page is Ok && (position == 0 || page->Ok_0.len() >= limit) ==> tail_lines(
                source,
                limit,
                offset,
            ) == page
        }),
{
    let found = found_lines(source.skip(position), position == 0);
    lemma_found_lines_are_first(source, position);
    lemma_page_of_first_lines(found, lines_from_end(source), limit, offset);
    if page_of(found, limit, offset) is Ok {
        lemma_page_lines(found, limit, offset);
    }
}

/// Whether `skip` and `found` are where a scan stands after it has found
/// `lines`: every line so far was UTF-8, the first `offset` were skipped,
/// and the ones after them were kept, up to `limit`.
#[verifier::opaque]
spec fn page_matches(
    lines: Seq<Seq<u8>>,
    limit: nat,
    offset: nat,
    skip: nat,
    found: Seq<Seq<char>>,
) -> bool {
    let seen = least(lines.len(), offset + limit);
    let skipped = least(lines.len(), offset);
    &&& skip == offset - skipped
    &&& found.len() == seen - skipped
    &&& forall|i: int| 0 <= i < seen ==> valid_utf8(#[trigger] lines[i])
    &&& forall|i: int| 0 <= i < found.len() ==> #[trigger] found[i] == decode_utf8(lines[offset + i])
}

/// Where a scan stands is the page of what it has found.
proof fn lemma_page_matches_page(
    lines: Seq<Seq<u8>>,
    limit: nat,
    offset: nat,
    skip: nat,
    found: Seq<Seq<char>>,
)
    requires
        page_matches(lines, limit, offset, skip, found),
    ensures
        page_of(lines, limit, offset) == Ok::<Seq<Seq<char>>, LogError>(found),
{
    reveal(page_matches);
    let passed = lines.take(least(lines.len(), offset + limit) as int);
    if limit == 0 {
        assert(found =~= Seq::<Seq<char>>::empty());
    } else {
        assert(all_utf8(passed));
        let page = decode_all(passed.skip(least(passed.len(), offset) as int));
        assert(page =~= found);
    }
}

/// A scan that has found nothing stands at the start of its page.
proof fn lemma_page_matches_nothing(limit: nat, offset: nat)
    ensures
        page_matches(Seq::empty(), limit, offset, offset, Seq::empty()),
{
    reveal(page_matches);
}

/// Once the page is full, a further line changes nothing.
proof fn lemma_page_matches_full(
    lines: Seq<Seq<u8>>,
    line: Seq<u8>,
    limit: nat,
    offset: nat,
    skip: nat,
    found: Seq<Seq<char>>,
)
    requires
        page_matches(lines, limit, offset, skip, found),
        limit > 0,
        found.len() >= limit,
    ensures
        page_matches(lines.push(line), limit, offset, skip, found),
{
    reveal(page_matches);
    let longer = lines.push(line);
    assert forall|k: int| 0 <= k < least(longer.len(), offset + limit) implies valid_utf8(
        #[trigger] longer[k],
    ) by {
        assert(longer[k] == lines[k]);
    }
    assert forall|k: int| 0 <= k < found.len() implies #[trigger] found[k] == decode_utf8(
        longer[offset + k],
    ) by {
        assert(longer[offset + k] == lines[offset + k]);
    }
}

/// At the start of a text, the line that the scan was in the middle of is
/// the last one that it finds.
proof fn lemma_found_lines_at_start(scanned: Seq<u8>)
    requires
        scanned.len() > 0,
    ensures
        found_lines(scanned, true) == found_lines(scanned, false).push(partial_line(scanned)),
{
    let lines = text_lines(scanned);
    assert(lines =~= seq![lines[0]] + lines.skip(1));
    assert(lines.reverse() =~= lines.skip(1).reverse().push(lines[0]));
}

/// What one more byte in front of what was read does to the lines found
/// and to the line that the scan is in the middle of.
proof fn lemma_scan_byte(byte: u8, scanned: Seq<u8>)
    ensures
        byte != LINE_FEED ==> {
            &&& found_lines(seq![byte] + scanned, false) == found_lines(scanned, false)
            &&& partial_line(seq![byte] + scanned).reverse() == partial_line(
                scanned,
            ).reverse().push(byte)
        },
        byte == LINE_FEED ==> partial_line(seq![byte] + scanned) == Seq::<u8>::empty(),
        byte == LINE_FEED && scanned.len() == 0 ==> found_lines(seq![byte] + scanned, false)
            == found_lines(scanned, false),
        byte == LINE_FEED && scanned.len() > 0 ==> found_lines(seq![byte] + scanned, false)
            == found_lines(scanned, false).push(partial_line(scanned)),
{
    let longer = seq![byte] + scanned;
    lemma_text_lines_cons(byte, scanned);
    if byte != LINE_FEED {
        if scanned.len() == 0 {
            assert(text_lines(longer).skip(1) =~= Seq::<Seq<u8>>::empty());
            assert(seq![byte].reverse() =~= Seq::<u8>::empty().reverse().push(byte));
        } else {
            let lines = text_lines(scanned);
            assert(lines.update(0, seq![byte] + lines[0]).skip(1) =~= lines.skip(1));
            assert((seq![byte] + lines[0]).reverse() =~= lines[0].reverse().push(byte));
        }
    } else {
        let lines = text_lines(scanned);
        assert((seq![Seq::<u8>::empty()] + lines).skip(1) =~= lines);
        if scanned.len() == 0 {
        } else {
            assert(lines =~= seq![lines[0]] + lines.skip(1));
            assert(lines.reverse() =~= lines.skip(1).reverse().push(lines[0]));
        }
    }
}

/// A copy of `bytes` in the opposite order.
fn reversed(bytes: &Vec<u8>) -> (r: Vec<u8>)
    ensures
        r@ == bytes@.reverse(),
{
    let mut r: Vec<u8> = Vec::new();
    let mut k: usize = bytes.len();
    while k > 0
        invariant
            k <= bytes@.len(),
            r@ == bytes@.reverse().take(bytes@.len() - k),
        decreases k,
    {
        k = k - 1;
        proof {
            let target = bytes@.reverse();
            let m = bytes@.len() - k - 1;
            assert(target.take(m + 1) =~= target.take(m).push(bytes@[k as int]));
        }
        r.push(bytes[k]);
    }
    assert(bytes@.reverse().take(bytes@.len() as int) =~= bytes@.reverse());
    r
}

/// Takes in one more line that the scan has found: checks that it is
/// UTF-8, then skips it or keeps it. `backwards` holds the line, its last
/// byte first.
fn take_line(
    backwards: &Vec<u8>,
    skip: &mut usize,
    found: &mut Vec<String>,
    Ghost(lines): Ghost<Seq<Seq<u8>>>,
    Ghost(limit): Ghost<nat>,
    Ghost(offset): Ghost<nat>,
) -> (r: Result<(), LogError>)
    requires
        page_matches(lines, limit, offset, *old(skip) as nat, strings_of(old(found)@)),
        old(found)@.len() < limit,
    ensures
        match r {
            Ok(_) => page_matches(
                lines.push(backwards@.reverse()),
                limit,
                offset,
                *final(skip) as nat,
                strings_of(final(found)@),
            ),
            Err(e) => e == LogError::InvalidEncoding && page_of(
                lines.push(backwards@.reverse()),
                limit,
                offset,
            ) == Err::<Seq<Seq<char>>, LogError>(LogError::InvalidEncoding),
        },
{
    proof {
        reveal(page_matches);
    }
    let ghost line = backwards@.reverse();
    let ghost longer = lines.push(line);
    let ghost kept = strings_of(found@);
    assert(lines.len() < offset + limit);
    match string_from_utf8(reversed(backwards)) {
        None => {
            proof {
                let passed = longer.take(least(longer.len(), offset + limit) as int);
                assert(passed[lines.len() as int] == line);
            }
            Err(LogError::InvalidEncoding)
        },
        Some(text) => {
            proof {
                encode_utf8_decode_utf8(text@);
            }
            if *skip > 0 {
                *skip = *skip - 1;
                proof {
                    assert forall|i: int|
                        0 <= i < least(longer.len(), offset + limit) implies valid_utf8(
                        #[trigger] longer[i],
                    ) by {
                        if i < lines.len() {
                            assert(longer[i] == lines[i]);
                        }
                    }
                }
            } else {
                found.push(text);
                proof {
                    let more = strings_of(found@);
                    assert forall|i: int|
                        0 <= i < least(longer.len(), offset + limit) implies valid_utf8(
                        #[trigger] longer[i],
                    ) by {
                        if i < lines.len() {
                            assert(longer[i] == lines[i]);
                        }
                    }
                    assert forall|i: int| 0 <= i < more.len() implies #[trigger] more[i]
                        == decode_utf8(longer[offset + i]) by {
                        if i < kept.len() {
                            assert(more[i] == kept[i]);
                            assert(longer[offset + i] == lines[offset + i]);
                        }
                    }
                }
            }
            Ok(())
        },
    }
}

/// A scan of a text from its end, for one page of its lines.
pub struct TailScanner {
    position: u64,
    limit: usize,
    skip: usize,
    fresh: bool,
    pending: Vec<u8>,
    found: Vec<String>,
    scanned: Ghost<Seq<u8>>,
    offset: Ghost<nat>,
}

impl TailScanner {
    #[verifier::type_invariant]
    spec fn well_formed(self) -> bool {
        &&& self.fresh == (self.scanned@.len() == 0)
        &&& self.pending@ == partial_line(self.scanned@).reverse()
        &&& page_matches(
            found_lines(self.scanned@, self.position == 0),
            self.limit as nat,
            self.offset@,
            self.skip as nat,
            strings_of(self.found@),
        )
    }

    /// How many bytes of the text lie before what the scan has read.
    pub closed spec fn position(self) -> nat {
        self.position as nat
    }

    /// How many lines the page may hold.
    pub closed spec fn limit(self) -> nat {
        self.limit as nat
    }

    /// How many lines, counted from the end, the page leaves out.
    pub closed spec fn offset(self) -> nat {
        self.offset@
    }

    /// The end of the text, as far as the scan has read it.
    pub closed spec fn scanned(self) -> Seq<u8> {
        self.scanned@
    }

    /// The lines of the page that the scan has found.
    pub closed spec fn lines(self) -> Seq<Seq<char>> {
        strings_of(self.found@)
    }

    /// Whether the scan needs nothing more: the page is full, or the text
    /// has been read to its start.
    pub open spec fn is_done(self) -> bool {
        self.position() == 0 || self.lines().len() >= self.limit()
    }

    /// Whether what the scan holds is the page of the lines that it has
    /// found so far. This is so of every scan.
    pub open spec fn holds_page(self) -> bool {
        page_of(
            found_lines(self.scanned(), self.position() == 0),
            self.limit(),
            self.offset(),
        ) == Ok::<Seq<Seq<char>>, LogError>(self.lines())
    }

    /// What the scan holds is the page of the lines found so far.
    proof fn lemma_holds_page(self)
        requires
            self.well_formed(),
        ensures
            self.holds_page(),
    {
        lemma_page_matches_page(
            found_lines(self.scanned@, self.position == 0),
            self.limit as nat,
            self.offset@,
            self.skip as nat,
            strings_of(self.found@),
        );
    }

    /// Starts a scan of a text of `source_len` bytes for the page of at
    /// most `limit` lines that leaves out the last `offset` lines.
    pub fn new(source_len: u64, limit: usize, offset: usize) -> (scanner: TailScanner)
        ensures
            scanner.position() == source_len,
            scanner.limit() == limit,
            scanner.offset() == offset,
            scanner.scanned() == Seq::<u8>::empty(),
            scanner.lines() == Seq::<Seq<char>>::empty(),
            scanner.holds_page(),
    {
        proof {
            lemma_page_matches_nothing(limit as nat, offset as nat);
            assert(strings_of(Seq::<String>::empty()) =~= Seq::<Seq<char>>::empty());
            assert(found_lines(Seq::<u8>::empty(), source_len == 0) =~= Seq::<Seq<u8>>::empty());
            assert(partial_line(Seq::<u8>::empty()).reverse() =~= Seq::<u8>::empty());
        }
        let scanner = TailScanner {
            position: source_len,
            limit,
            skip: offset,
            fresh: true,
            pending: Vec::new(),
            found: Vec::new(),
            scanned: Ghost(Seq::empty()),
            offset: Ghost(offset as nat),
        };
        proof {
            scanner.lemma_holds_page();
        }
        scanner
    }

    /// Which bytes the scan wants next: where they start and how many
    /// they are. They end where the last ones started. Nothing is wanted
    /// once the scan is done.
    pub fn next_read(&self) -> (r: Option<(u64, usize)>)
        ensures
            r is None <==> self.is_done(),
            r matches Some((start, length)) ==> start + length == self.position() && length
                == least(self.position(), TAIL_BUFFER_SIZE as nat),
            self.holds_page(),
    {
        proof {
            use_type_invariant(self);
            self.lemma_holds_page();
        }
        if self.position == 0 || self.found.len() >= self.limit {
            None
        } else if self.position < TAIL_BUFFER_SIZE as u64 {
            Some((0, self.position as usize))
        } else {
            Some((self.position - TAIL_BUFFER_SIZE as u64, TAIL_BUFFER_SIZE))
        }
    }

    /// The page of the lines found once the last `taken` bytes of `chunk`
    /// have been read as well.
    pub open spec fn page_after(self, chunk: Seq<u8>, taken: int) -> Result<
        Seq<Seq<char>>,
        LogError,
    > {
        page_of(
            found_lines(chunk.skip(chunk.len() - taken) + self.scanned(), taken == self.position()),
            self.limit(),
            self.offset(),
        )
    }

    /// Whether the scan, handed `chunk`, has reason to read each of its
    /// last `taken` bytes: before each of them the page is found and is
    /// not full.
    #[verifier::opaque]
    pub open spec fn reads_on(self, chunk: Seq<u8>, taken: int) -> bool {
        forall|t: int|
            0 <= t < taken ==> page_is_short(#[trigger] self.page_after(chunk, t), self.limit())
    }

    /// A scan has reason to read no bytes at all.
    proof fn lemma_reads_on_start(self, chunk: Seq<u8>)
        ensures
            self.reads_on(chunk, 0),
    {
        reveal(TailScanner::reads_on);
    }

    /// A scan that had reason to read `taken` bytes, and then finds the
    /// page not full, has reason to read one more.
    proof fn lemma_reads_on_step(self, chunk: Seq<u8>, taken: int)
        requires
            self.reads_on(chunk, taken),
            page_is_short(self.page_after(chunk, taken), self.limit()),
        ensures
            self.reads_on(chunk, taken + 1),
    {
        reveal(TailScanner::reads_on);
    }

    /// Hands the scan the bytes that stand right before what it has read.
    ///
    /// The scan reads `chunk` from its end, byte by byte, for as long as
    /// the page is not full and the start of the text is not reached; of
    /// a chunk that is longer than what is left of the text, only the end
    /// is read. A scan that is done reads nothing. The scan fails at the
    /// first line that it finds and that is not UTF-8.
    pub fn feed(self, chunk: &[u8]) -> (r: Result<TailScanner, LogError>)
        ensures
            match r {
                Ok(next) => {
                    let taken = self.position() - next.position();
                    &&& next.limit() == self.limit()
                    &&& next.offset() == self.offset()
                    &&& 0 <= taken <= chunk@.len()
                    &&& next.scanned() == chunk@.skip(chunk@.len() - taken) + self.scanned()
                    &&& next.holds_page()
                    &&& self.is_done() ==> taken == 0 && next.lines() == self.lines()
                    &&& !self.is_done() && chunk@.len() > 0 ==> taken > 0
                    &&& taken < chunk@.len() ==> next.is_done()
                    &&& self.reads_on(chunk@, taken)
                },
                Err(e) => exists|taken: int|
                    {
                        &&& 0 < taken <= chunk@.len()
                        &&& taken <= self.position()
                        &&& #[trigger] self.page_after(chunk@, taken) == Err::<
                            Seq<Seq<char>>,
                            LogError,
                        >(e)
                        &&& self.reads_on(chunk@, taken)
                    },
            },
    {
        proof {
            use_type_invariant(&self);
            self.lemma_reads_on_start(chunk@);
        }
        if self.position == 0 || self.found.len() >= self.limit {
            proof {
                self.lemma_holds_page();
                assert(chunk@.skip(chunk@.len() as int) + self.scanned@ =~= self.scanned@);
            }
            return Ok(self);
        }
        let ghost before = self;
        let TailScanner { position, limit, skip, fresh, pending, found, scanned, offset } = self;
        let mut skip = skip;
        let mut fresh = fresh;
        let mut pending = pending;
        let mut found = found;
        let usable: usize = if chunk.len() as u64 > position {
            position as usize
        } else {
            chunk.len()
        };
        let stop: usize = chunk.len() - usable;
        let mut i: usize = chunk.len();
        let ghost mut read: Seq<u8> = scanned@;
        assert(chunk@.subrange(i as int, chunk@.len() as int) + scanned@ =~= scanned@);
        while i > stop && found.len() < limit
            invariant
                stop <= i <= chunk@.len(),
                stop == chunk@.len() - usable,
                usable <= position,
                before == self,
                position == before.position(),
                limit == before.limit(),
                offset@ == before.offset(),
                scanned@ == before.scanned(),
                read == chunk@.subrange(i as int, chunk@.len() as int) + scanned@,
                fresh == (read.len() == 0),
                pending@ == partial_line(read).reverse(),
                page_matches(
                    found_lines(read, false),
                    limit as nat,
                    offset@,
                    skip as nat,
                    strings_of(found@),
                ),
                before.reads_on(chunk@, chunk@.len() - i),
                i == chunk@.len() ==> found@.len() < limit,
            decreases i,
        {
            proof {
                let t = chunk@.len() - i;
                lemma_page_matches_page(
                    found_lines(read, false),
                    limit as nat,
                    offset@,
                    skip as nat,
                    strings_of(found@),
                );
                assert(chunk@.skip(chunk@.len() - t) + before.scanned() =~= read);
                assert(page_is_short(before.page_after(chunk@, t), limit as nat));
                before.lemma_reads_on_step(chunk@, t);
            }
            i = i - 1;
            let byte = chunk[i];
            let ghost longer = seq![byte] + read;
            proof {
                lemma_scan_byte(byte, read);
                assert(longer =~= chunk@.subrange(i as int, chunk@.len() as int) + scanned@);
                assert(chunk@.skip(i as int) =~= chunk@.subrange(i as int, chunk@.len() as int));
            }
            if byte == LINE_FEED {
                if !fresh {
                    match take_line(
                        &pending,
                        &mut skip,
                        &mut found,
                        Ghost(found_lines(read, false)),
                        Ghost(limit as nat),
                        Ghost(offset@),
                    ) {
                        Err(e) => {
                            proof {
                                let taken = chunk@.len() - i;
                                assert(pending@.reverse() =~= partial_line(read));
                                assert(found_lines(longer, false) == found_lines(
                                    read,
                                    false,
                                ).push(partial_line(read)));
                                assert(longer == chunk@.skip(chunk@.len() - taken)
                                    + before.scanned());
                                if taken == position {
                                    lemma_found_lines_at_start(longer);
                                    let some = found_lines(longer, false);
                                    let all = found_lines(longer, true);
                                    assert(all.take(some.len() as int) =~= some);
                                    lemma_page_of_first_lines(
                                        some,
                                        all,
                                        limit as nat,
                                        offset@,
                                    );
                                }
                                assert(before.page_after(chunk@, taken) == Err::<
                                    Seq<Seq<char>>,
                                    LogError,
                                >(e));
                            }
                            return Err(e);
                        },
                        Ok(_) => {
                            assert(pending@.reverse() =~= partial_line(read));
                        },
                    }
                    pending = Vec::new();
                }
            } else {
                pending.push(byte);
            }
            fresh = false;
            proof {
                read = longer;
                assert(Seq::<u8>::empty().reverse() =~= Seq::<u8>::empty());
            }
        }
        let position = position - (chunk.len() - i) as u64;
        let ghost taken = chunk@.len() - i;
        proof {
            assert(chunk@.skip(i as int) =~= chunk@.subrange(i as int, chunk@.len() as int));
        }
        if position == 0 {
            proof {
                assert(read.len() > 0);
                lemma_found_lines_at_start(read);
                assert(pending@.reverse() =~= partial_line(read));
                assert(read == chunk@.skip(chunk@.len() - taken) + before.scanned());
            }
            if found.len() < limit {
                match take_line(
                    &pending,
                    &mut skip,
                    &mut found,
                    Ghost(found_lines(read, false)),
                    Ghost(limit as nat),
                    Ghost(offset@),
                ) {
                    Err(e) => {
                        proof {
                            assert(before.page_after(chunk@, taken) == Err::<
                                Seq<Seq<char>>,
                                LogError,
                            >(e));
                        }
                        return Err(e);
                    },
                    Ok(_) => {},
                }
            } else {
                proof {
                    lemma_page_matches_full(
                        found_lines(read, false),
                        partial_line(read),
                        limit as nat,
                        offset@,
                        skip as nat,
                        strings_of(found@),
                    );
                }
            }
        }
        let next = TailScanner {
            position,
            limit,
            skip,
            fresh,
            pending,
            found,
            scanned: Ghost(read),
            offset,
        };
        proof {
            next.lemma_holds_page();
        }
        Ok(next)
    }

    /// The lines of the page, the last line of the text first.
    pub fn into_lines(self) -> (lines: Vec<String>)
        ensures
            strings_of(lines@) == self.lines(),
            self.holds_page(),
    {
        proof {
            use_type_invariant(&self);
            self.lemma_holds_page();
        }
        self.found
    }
}

} // verus!
