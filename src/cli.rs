use vstd::prelude::*;

verus! {

/// What one search is asked to do: the text to look for, the file to look in,
/// and whether case is ignored.
pub struct Config {
    pub query: String,
    pub file_path: String,
    ignore_case: bool,
}

/// The message with which building a `Config` fails.
pub const NOT_ENOUGH_ARGUMENTS: &'static str = "not enough arguments";

/// The line that a case-sensitive search returns when no line matches.
pub const NO_MATCHES: &'static str = "No matches in the file.";

/// The pieces of `s` that its newline characters separate: always one more piece
/// than `s` has newlines, the last one being what follows the final newline.
pub open spec fn pieces(s: Seq<char>) -> Seq<Seq<char>>
    decreases s.len(),
{
    if s.len() == 0 {
        seq![Seq::empty()]
    } else {
        let p = pieces(s.drop_last());
        if s.last() == '\n' {
            p.push(Seq::empty())
        } else {
            p.update(p.len() - 1, p.last().push(s.last()))
        }
    }
}

/// A line that a newline ended loses one carriage return just before that newline.
pub open spec fn strip_cr(l: Seq<char>) -> Seq<char> {
    if l.len() > 0 && l.last() == '\r' {
        l.drop_last()
    } else {
        l
    }
}

/// The lines of `s`: each piece ended by `\n` or `\r\n`, without that ending,
/// then the text after the final newline if it is not empty.
pub open spec fn lines_of(s: Seq<char>) -> Seq<Seq<char>> {
    let p = pieces(s);
    let ended = p.drop_last().map_values(|l: Seq<char>| strip_cr(l));
    if p.last().len() == 0 {
        ended
    } else {
        ended.push(p.last())
    }
}

/// `needle` occurs in `hay` as a run of consecutive characters.
pub open spec fn has_substring(hay: Seq<char>, needle: Seq<char>) -> bool {
    exists|i: int|
        0 <= i && i + needle.len() <= hay.len() && #[trigger] hay.subrange(i, i + needle.len())
            == needle
}

/// The lines of `contents` that hold `query`, in their order.
pub open spec fn matching_lines(query: Seq<char>, contents: Seq<char>) -> Seq<Seq<char>> {
    lines_of(contents).filter(|l: Seq<char>| has_substring(l, query))
}

/// What a case-sensitive search returns: the matching lines, or the single line
/// `No matches in the file.` where none matches.
pub open spec fn search_result(query: Seq<char>, contents: Seq<char>) -> Seq<Seq<char>> {
    let m = matching_lines(query, contents);
    if m.len() == 0 {
        seq![NO_MATCHES@]
    } else {
        m
    }
}

/// The lowercase form of `s`, as `str::to_lowercase` gives it.
pub uninterp spec fn lower_of(s: Seq<char>) -> Seq<char>;

/// The lines of `contents` whose lowercase form holds the lowercase form of
/// `query`, in their order and with their own case.
pub open spec fn matching_lines_ignoring_case(query: Seq<char>, contents: Seq<char>) -> Seq<
    Seq<char>,
> {
    lines_of(contents).filter(|l: Seq<char>| has_substring(lower_of(l), lower_of(query)))
}

/// What a sequence of string slices holds, as character sequences.
pub open spec fn views(v: Seq<&str>) -> Seq<Seq<char>> {
    v.map_values(|x: &str| x@)
}

proof fn lemma_filter_step<A>(s: Seq<A>, i: int, pred: spec_fn(A) -> bool)
    requires
        0 <= i < s.len(),
    ensures
        s.take(i + 1).filter(pred) == if pred(s[i]) {
            s.take(i).filter(pred).push(s[i])
        } else {
            s.take(i).filter(pred)
        },
{
    let t = s.take(i + 1);
    assert(t.drop_last() =~= s.take(i));
    assert(t.last() == s[i]);
    reveal(Seq::filter);
}

proof fn lemma_pieces_nonempty(s: Seq<char>)
    ensures
        pieces(s).len() >= 1,
    decreases s.len(),
{
    if s.len() > 0 {
        lemma_pieces_nonempty(s.drop_last());
    }
}

/// The characters of `s`, in order, one per element.
fn chars_of(s: &str) -> (r: Vec<char>)
    ensures
        r@ == s@,
{
    let mut r: Vec<char> = Vec::new();
    for c in it: s.chars()
        invariant
            r@ == it.seq().take(it.index() as int),
            it.seq() == s@,
    {
        r.push(c);
    }
    r
}

/// Relies on str::to_lowercase: the lowercase form depends on the characters alone.
#[verifier::external_body]
fn to_lowercase(s: &str) -> (r: String)
    ensures
        r@ == lower_of(s@),
{
    s.to_lowercase()
}

/// Whether `needle` occurs in `hay` starting at position `i`.
fn occurs_at(hay: &Vec<char>, needle: &Vec<char>, i: usize) -> (r: bool)
    requires
        i + needle.len() <= hay.len(),
    ensures
        r == (hay@.subrange(i as int, i + needle.len()) == needle@),
{
    let mut j: usize = 0;
    while j < needle.len()
        invariant
            j <= needle.len(),
            i + needle.len() <= hay.len(),
            forall|k: int| 0 <= k < j ==> hay@[i + k] == needle@[k],
        decreases needle.len() - j,
    {
        if hay[i + j] != needle[j] {
            assert(hay@.subrange(i as int, i + needle.len())[j as int] != needle@[j as int]);
            return false;
        }
        j = j + 1;
    }
    assert(hay@.subrange(i as int, i + needle.len()) =~= needle@);
    true
}

/// Whether `query` occurs in `line` as a run of consecutive characters.
pub fn contains(line: &str, query: &str) -> (r: bool)
    ensures
        r == has_substring(line@, query@),
{
    let hay = chars_of(line);
    let needle = chars_of(query);
    if needle.len() == 0 {
        assert(line@.subrange(0, 0 + query@.len() as int) =~= query@);
        return true;
    }
    if needle.len() > hay.len() {
        return false;
    }
    let last = hay.len() - needle.len();
    let mut i: usize = 0;
    while i <= last
        invariant
            last + needle.len() == hay.len(),
            needle.len() >= 1,
            hay@ == line@,
            needle@ == query@,
            forall|k: int|
                0 <= k < i ==> #[trigger] hay@.subrange(k, k + needle.len()) != needle@,
        decreases last + 1 - i,
    {
        if occurs_at(&hay, &needle, i) {
            return true;
        }
        i = i + 1;
    }
    false
}

/// Splits `contents` into its lines, in order. A line ends at `\n` or at `\r\n`;
/// the ending is not part of the line, and a final line ending is optional.
pub fn lines<'a>(contents: &'a str) -> (r: Vec<&'a str>)
    ensures
        views(r@) == lines_of(contents@),
{
    let v = chars_of(contents);
    let n = v.len();
    let mut r: Vec<&'a str> = Vec::new();
    let mut start: usize = 0;
    let mut i: usize = 0;
    let ghost mut done: Seq<Seq<char>> = Seq::empty();
    assert(v@.take(0) =~= Seq::<char>::empty());
    assert(done.push(v@.subrange(0, 0)) =~= seq![Seq::<char>::empty()]);
    while i < n
        invariant
            v@ == contents@,
            n == v.len(),
            start <= i <= n,
            pieces(v@.take(i as int)) == done.push(v@.subrange(start as int, i as int)),
            views(r@) == done.map_values(|l: Seq<char>| strip_cr(l)),
        decreases n - i,
    {
        proof {
            lemma_pieces_nonempty(v@.take(i as int));
        }
        assert(v@.take(i + 1).drop_last() =~= v@.take(i as int));
        if v[i] == '\n' {
            let mut end: usize = i;
            if end > start && v[end - 1] == '\r' {
                end = end - 1;
            }
            let line = contents.substring_char(start, end);
            proof {
                let piece = v@.subrange(start as int, i as int);
                assert(line@ =~= strip_cr(piece));
                done = done.push(piece);
            }
            let ghost before = r@;
            r.push(line);
            start = i + 1;
            assert(r@ == before.push(line));
            assert(views(r@) =~= views(before).push(line@));
            assert(views(r@) =~= done.map_values(|l: Seq<char>| strip_cr(l)));
            assert(v@.subrange(start as int, i + 1) =~= Seq::<char>::empty());
        } else {
            assert(v@.subrange(start as int, i + 1) =~= v@.subrange(start as int, i as int).push(
                v@[i as int],
            ));
        }
        i = i + 1;
        assert(pieces(v@.take(i as int)) =~= done.push(v@.subrange(start as int, i as int)));
    }
    assert(v@.take(n as int) =~= v@);
    if start < n {
        let line = contents.substring_char(start, n);
        r.push(line);
    }
    proof {
        let tail = v@.subrange(start as int, n as int);
        assert(pieces(contents@).drop_last() =~= done);
        assert(pieces(contents@).last() =~= tail);
    }
    assert(views(r@) =~= lines_of(contents@));
    r
}

/// The lines of `contents` that hold `query`, in order; the single line
/// `No matches in the file.` where none does.
pub fn search<'a>(query: &str, contents: &'a str) -> (r: Vec<&'a str>)
    ensures
        views(r@) == search_result(query@, contents@),
{
    let all = lines(contents);
    let mut results: Vec<&'a str> = Vec::new();
    let mut i: usize = 0;
    while i < all.len()
        invariant
            i <= all.len(),
            views(all@) == lines_of(contents@),
            views(results@) == views(all@).take(i as int).filter(
                |l: Seq<char>| has_substring(l, query@),
            ),
        decreases all.len() - i,
    {
        let line = all[i];
        let ghost before = results@;
        proof {
            lemma_filter_step(views(all@), i as int, |l: Seq<char>| has_substring(l, query@));
        }
        if contains(line, query) {
            results.push(line);
            assert(views(results@) =~= views(before).push(line@));
        }
        i = i + 1;
    }
    assert(views(all@).take(i as int) =~= views(all@));
    if results.len() == 0 {
        results.push(NO_MATCHES);
        assert(views(results@) =~= seq![NO_MATCHES@]);
    }
    results
}

/// The lines of `contents` whose lowercase form holds the lowercase form of
/// `query`, in order and with their own case; empty where none does.
pub fn search_case_insensitive<'a>(query: &str, contents: &'a str) -> (r: Vec<&'a str>)
    ensures
        views(r@) == matching_lines_ignoring_case(query@, contents@),
{
    let query = to_lowercase(query);
    let all = lines(contents);
    let mut results: Vec<&'a str> = Vec::new();
    let mut i: usize = 0;
    while i < all.len()
        invariant
            i <= all.len(),
            views(all@) == lines_of(contents@),
            views(results@) == views(all@).take(i as int).filter(
                |l: Seq<char>| has_substring(lower_of(l), query@),
            ),
        decreases all.len() - i,
    {
        let line = all[i];
        let ghost before = results@;
        proof {
            lemma_filter_step(
                views(all@),
                i as int,
                |l: Seq<char>| has_substring(lower_of(l), query@),
            );
        }
        let lowered = to_lowercase(line);
        if contains(lowered.as_str(), query.as_str()) {
            results.push(line);
            assert(views(results@) =~= views(before).push(line@));
        }
        i = i + 1;
    }
    assert(views(all@).take(i as int) =~= views(all@));
    results
}

impl Config {
    /// The text that this configuration looks for.
    pub closed spec fn query_text(&self) -> Seq<char> {
        self.query@
    }

    /// The path of the file that this configuration looks in.
    pub closed spec fn path_text(&self) -> Seq<char> {
        self.file_path@
    }

    /// Whether this configuration asks for a search that ignores case.
    pub closed spec fn case_ignored(&self) -> bool {
        self.ignore_case
    }

    /// Builds a configuration from the program's arguments: the program's name,
    /// then the query, then the file path; further arguments are not read.
    /// `ignore_case` says whether case is to be ignored. Fails where fewer than
    /// three arguments are given.
    pub fn build(args: &[String], ignore_case: bool) -> (r: Result<Config, &'static str>)
        ensures
            r is Err <==> args@.len() < 3,
            r is Err ==> r->Err_0 == NOT_ENOUGH_ARGUMENTS,
            r matches Ok(c) ==> c.query_text() == args@[1]@ && c.path_text() == args@[2]@
                && c.case_ignored() == ignore_case,
    {
        if args.len() < 3 {
            return Err(NOT_ENOUGH_ARGUMENTS);
        }
        let query: String = args[1].clone();
        let file_path: String = args[2].clone();
        Ok(Config { query, file_path, ignore_case })
    }

    /// Whether this configuration asks for a search that ignores case.
    pub fn ignore_case(&self) -> (r: bool)
        ensures
            r == self.case_ignored(),
    {
        self.ignore_case
    }

    /// Searches `contents` for this configuration's query, ignoring case or
    /// not as it says.
    pub fn search_in<'a>(&self, contents: &'a str) -> (r: Vec<&'a str>)
        ensures
            views(r@) == if self.case_ignored() {
                matching_lines_ignoring_case(self.query_text(), contents@)
            } else {
                search_result(self.query_text(), contents@)
            },
    {
        if self.ignore_case {
            search_case_insensitive(self.query.as_str(), contents)
        } else {
            search(self.query.as_str(), contents)
        }
    }
}

/// Every line that a case-sensitive search returns holds the query, unless the
/// result is the single line `No matches in the file.`.
pub proof fn lemma_search_lines_hold_query(query: Seq<char>, contents: Seq<char>)
    ensures
        search_result(query, contents) == seq![NO_MATCHES@] || forall|i: int|
            0 <= i < search_result(query, contents).len() ==> has_substring(
                #[trigger] search_result(query, contents)[i],
                query,
            ),
{
    let pred = |l: Seq<char>| has_substring(l, query);
    let m = lines_of(contents).filter(pred);
    if m.len() != 0 {
        assert forall|i: int| 0 <= i < m.len() implies has_substring(#[trigger] m[i], query) by {
            lines_of(contents).lemma_filter_pred(pred, i);
        }
    }
}

/// A search that ignores case returns exactly the lines of the contents whose
/// lowercase form holds the lowercase query: each one it returns is such a line,
/// each such line is among them, and none is returned where no line is such.
pub proof fn lemma_case_insensitive_exact(query: Seq<char>, contents: Seq<char>)
    ensures
        forall|i: int|
            0 <= i < matching_lines_ignoring_case(query, contents).len() ==> has_substring(
                lower_of(#[trigger] matching_lines_ignoring_case(query, contents)[i]),
                lower_of(query),
            ),
        forall|i: int|
            0 <= i < lines_of(contents).len() && has_substring(
                lower_of(#[trigger] lines_of(contents)[i]),
                lower_of(query),
            ) ==> matching_lines_ignoring_case(query, contents).contains(lines_of(contents)[i]),
        matching_lines_ignoring_case(query, contents).len() == 0 <==> forall|i: int|
            0 <= i < lines_of(contents).len() ==> !has_substring(
                lower_of(#[trigger] lines_of(contents)[i]),
                lower_of(query),
            ),
{
    let pred = |l: Seq<char>| has_substring(lower_of(l), lower_of(query));
    let all = lines_of(contents);
    let m = all.filter(pred);
    assert forall|i: int| 0 <= i < m.len() implies pred(#[trigger] m[i]) by {
        all.lemma_filter_pred(pred, i);
    }
    assert forall|i: int| 0 <= i < all.len() && pred(#[trigger] all[i]) implies m.contains(
        all[i],
    ) by {
        all.lemma_filter_contains(pred, i);
    }
    if m.len() == 0 {
        assert forall|i: int| 0 <= i < all.len() implies !pred(#[trigger] all[i]) by {
            if pred(all[i]) {
                all.lemma_filter_contains(pred, i);
            }
        }
    } else {
        assert(pred(m[0]));
        all.lemma_filter_contains_rev(pred, m[0]);
    }
}

/// Where no line of the contents holds the query, in either sense, a
/// case-sensitive search returns the single line `No matches in the file.` and
/// one that ignores case returns nothing.
pub proof fn lemma_no_match(query: Seq<char>, contents: Seq<char>)
    requires
        forall|i: int|
            0 <= i < lines_of(contents).len() ==> !has_substring(
                #[trigger] lines_of(contents)[i],
                query,
            ) && !has_substring(lower_of(lines_of(contents)[i]), lower_of(query)),
    ensures
        search_result(query, contents) == seq![NO_MATCHES@],
        matching_lines_ignoring_case(query, contents).len() == 0,
{
    let all = lines_of(contents);
    let exact = |l: Seq<char>| has_substring(l, query);
    let folded = |l: Seq<char>| has_substring(lower_of(l), lower_of(query));
    all.lemma_all_neg_filter_empty(exact);
    all.lemma_all_neg_filter_empty(folded);
}

/// Both searches are functions of their inputs alone: two searches of the same
/// contents for the same query give the same lines.
pub proof fn lemma_searches_are_pure(
    query1: Seq<char>,
    contents1: Seq<char>,
    query2: Seq<char>,
    contents2: Seq<char>,
)
    requires
        query1 == query2,
        contents1 == contents2,
    ensures
        search_result(query1, contents1) == search_result(query2, contents2),
        matching_lines_ignoring_case(query1, contents1) == matching_lines_ignoring_case(
            query2,
            contents2,
        ),
{
}

} // verus!
