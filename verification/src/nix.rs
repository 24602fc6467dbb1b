//! What is asked of the Nix store, and what its answers mean.
//!
//! Only the stable `nix-store` queries are used: `-q --size` prints one size per path in input
//! order, `-q --requisites` prints the deduplicated union closure, `--gc --print-dead` prints the
//! dead paths, and `--check-validity --print-invalid` prints those of its arguments that are not
//! valid. A question is put as a [`Query`]; whoever runs the command hands back a [`Reply`].

use vstd::prelude::*;
use vstd::string::*;

use crate::number::{decimal, decimal_text, number_of, read_number};
use crate::paths::{decode_lossy, lossy_text};
use crate::text::{
    copy_strings, debug_form, lines, lines_of, quoted, starts_with, texts, trim, trimmed,
};

verus! {

/// Largest number of store paths to pass to one `nix-store` invocation.
pub const CHUNK: usize = 256;

// ---------------------------------------------------------------------------------------------
// Questions and answers
// ---------------------------------------------------------------------------------------------

/// A question about the store.
pub enum Query {
    /// Whether all of these paths exist.
    Present(Vec<String>),
    /// The union closure of these paths.
    Requisites(Vec<String>),
    /// The NAR sizes of these paths.
    Sizes(Vec<String>),
    /// Which of these paths are not valid.
    Invalid(Vec<String>),
    /// The dead paths.
    Dead,
}

/// A question about the store, by its texts.
#[verifier::ext_equal]
pub enum QueryView {
    Present(Seq<Seq<char>>),
    Requisites(Seq<Seq<char>>),
    Sizes(Seq<Seq<char>>),
    Invalid(Seq<Seq<char>>),
    Dead,
}

impl View for Query {
    type V = QueryView;

    open spec fn view(&self) -> QueryView {
        match self {
            Query::Present(p) => QueryView::Present(texts(p@)),
            Query::Requisites(p) => QueryView::Requisites(texts(p@)),
            Query::Sizes(p) => QueryView::Sizes(texts(p@)),
            Query::Invalid(p) => QueryView::Invalid(texts(p@)),
            Query::Dead => QueryView::Dead,
        }
    }
}

impl QueryView {
    /// Whether the question goes to `nix-store`; the file system answers the other one.
    pub open spec fn asks_nix(self) -> bool {
        !(self is Present)
    }

    /// What is reported when the command fails without saying anything.
    pub open spec fn complaint(self) -> Seq<char> {
        match self {
            QueryView::Present(_) => ""@,
            QueryView::Requisites(_) => "nix-store -q --requisites failed"@,
            QueryView::Sizes(_) => "nix-store -q --size failed"@,
            QueryView::Invalid(_) => "nix-store --check-validity failed"@,
            QueryView::Dead => "nix-store --gc --print-dead failed"@,
        }
    }

    /// The options of the command that the question is put with.
    pub open spec fn options(self) -> Seq<Seq<char>> {
        match self {
            QueryView::Present(_) => Seq::empty(),
            QueryView::Requisites(_) => seq!["-q"@, "--requisites"@],
            QueryView::Sizes(_) => seq!["-q"@, "--size"@],
            QueryView::Invalid(_) => seq!["--check-validity"@, "--print-invalid"@],
            QueryView::Dead => seq!["--gc"@, "--print-dead"@],
        }
    }

    /// The paths that the question is about.
    pub open spec fn paths(self) -> Seq<Seq<char>> {
        match self {
            QueryView::Present(p) => p,
            QueryView::Requisites(p) => p,
            QueryView::Sizes(p) => p,
            QueryView::Invalid(p) => p,
            QueryView::Dead => Seq::empty(),
        }
    }
}

impl Query {
    /// The arguments of the `nix-store` command that puts this question: its options, then the
    /// paths that it is about.
    pub fn arguments(&self) -> (r: Vec<String>)
        ensures
            texts(r@) == self@.options() + self@.paths(),
    {
        let (first, second, paths) = match self {
            Query::Present(p) => {
                let r = copy_strings(p);
                assert(texts(r@) =~= self@.options() + self@.paths());
                return r;
            },
            Query::Requisites(p) => ("-q", "--requisites", copy_strings(p)),
            Query::Sizes(p) => ("-q", "--size", copy_strings(p)),
            Query::Invalid(p) => ("--check-validity", "--print-invalid", copy_strings(p)),
            Query::Dead => ("--gc", "--print-dead", Vec::new()),
        };
        assert(texts(paths@) =~= self@.paths());
        let mut r: Vec<String> = Vec::new();
        r.push(String::from_str(first));
        r.push(String::from_str(second));
        let mut paths: Vec<String> = paths;
        r.append(&mut paths);
        assert(texts(r@) =~= self@.options() + self@.paths());
        r
    }

    /// What is reported when the command fails without saying anything.
    fn complain(&self) -> (r: &'static str)
        ensures
            r@ == self@.complaint(),
    {
        match self {
            Query::Present(_) => "",
            Query::Requisites(_) => "nix-store -q --requisites failed",
            Query::Sizes(_) => "nix-store -q --size failed",
            Query::Invalid(_) => "nix-store --check-validity failed",
            Query::Dead => "nix-store --gc --print-dead failed",
        }
    }
}

/// An answer to a question about the store.
pub enum Reply {
    /// Whether the paths exist.
    Present(bool),
    /// The command ran and ended.
    Exited { success: bool, stdout: String, stderr: String },
    /// The command could not be run.
    Failed(String),
}

/// An answer to a question about the store, by its texts.
pub enum ReplyView {
    Present(bool),
    Exited { success: bool, stdout: Seq<char>, stderr: Seq<char> },
    Failed(Seq<char>),
}

impl View for Reply {
    type V = ReplyView;

    open spec fn view(&self) -> ReplyView {
        match self {
            Reply::Present(b) => ReplyView::Present(*b),
            Reply::Exited { success, stdout, stderr } => ReplyView::Exited {
                success: *success,
                stdout: stdout@,
                stderr: stderr@,
            },
            Reply::Failed(m) => ReplyView::Failed(m@),
        }
    }
}

impl Reply {
    /// The answer of a command that ran, from what it wrote.
    pub fn exited(success: bool, stdout: &[u8], stderr: &[u8]) -> (r: Reply)
        ensures
            r@ == (ReplyView::Exited {
                success,
                stdout: lossy_text(stdout@),
                stderr: lossy_text(stderr@),
            }),
    {
        Reply::Exited { success, stdout: decode_lossy(stdout), stderr: decode_lossy(stderr) }
    }
}

/// What kept a question from being answered.
#[derive(Clone, Copy, PartialEq, Eq, Structural, Debug)]
pub enum FailureKind {
    /// The command could not be run.
    NotRun,
    /// The command ran and failed.
    Failed,
    /// The command printed what is no answer.
    InvalidData,
}

/// Why a question was not answered.
#[derive(PartialEq, Eq, Debug)]
pub struct StoreError {
    pub kind: FailureKind,
    pub message: String,
}

/// Why a question was not answered, by its text.
pub struct StoreErrorView {
    pub kind: FailureKind,
    pub message: Seq<char>,
}

impl View for StoreError {
    type V = StoreErrorView;

    open spec fn view(&self) -> StoreErrorView {
        StoreErrorView { kind: self.kind, message: self.message@ }
    }
}

/// A failure of the command.
pub open spec fn failed(message: Seq<char>) -> StoreErrorView {
    StoreErrorView { kind: FailureKind::Failed, message }
}

/// What the command printed is no answer.
pub open spec fn invalid_data(message: Seq<char>) -> StoreErrorView {
    StoreErrorView { kind: FailureKind::InvalidData, message }
}

/// How a store answers each question, given the questions that it answered before. What a store
/// does in the course of a run, whatever changes meanwhile, is one of these.
pub type Store = spec_fn(Seq<QueryView>, QueryView) -> ReplyView;

/// The answer of a store that was not asked anything before.
pub open spec fn answer_of(store: Store, q: QueryView) -> ReplyView {
    store(Seq::empty(), q)
}

/// A store that has answered these questions.
pub open spec fn later(store: Store, asked: Seq<QueryView>) -> Store {
    |before: Seq<QueryView>, q: QueryView| store(asked + before, q)
}

/// Answering no question changes nothing.
pub broadcast proof fn lemma_later_nothing(store: Store)
    ensures
        #[trigger] later(store, Seq::<QueryView>::empty()) == store,
{
    assert forall|before: Seq<QueryView>, q: QueryView|
        #[trigger] later(store, Seq::<QueryView>::empty())(before, q) == store(before, q) by {
        assert(Seq::<QueryView>::empty() + before =~= before);
    }
    assert(later(store, Seq::<QueryView>::empty()) =~= store);
}

/// Answering a question and then others is answering them all.
pub broadcast proof fn lemma_later_asking(store: Store, q: QueryView, asked: Seq<QueryView>)
    ensures
        #[trigger] later(store, seq![q] + asked) == later(later(store, seq![q]), asked),
{
    lemma_later_twice(store, seq![q], asked);
}

/// Answering questions and then others is answering them all.
pub proof fn lemma_later_twice(store: Store, a: Seq<QueryView>, b: Seq<QueryView>)
    ensures
        later(later(store, a), b) == later(store, a + b),
{
    let x = later(later(store, a), b);
    let y = later(store, a + b);
    assert forall|before: Seq<QueryView>, q: QueryView| #[trigger] x(before, q) == y(before, q) by {
        assert(a + (b + before) =~= (a + b) + before);
    }
    assert(x =~= y);
}

/// What a command printed, or why it failed: its own words, or failing these the complaint of the
/// question. An answer to another kind of question counts as a failure without words.
pub open spec fn printed(q: QueryView, reply: ReplyView) -> Result<Seq<char>, StoreErrorView> {
    match reply {
        ReplyView::Present(_) => Err(failed(q.complaint())),
        ReplyView::Exited { success, stdout, stderr } => if success {
            Ok(stdout)
        } else if trimmed(stderr).len() == 0 {
            Err(failed(q.complaint()))
        } else {
            Err(failed(trimmed(stderr)))
        },
        ReplyView::Failed(m) => Err(StoreErrorView { kind: FailureKind::NotRun, message: m }),
    }
}

/// A result by the texts of its strings.
pub open spec fn text_result(r: Result<String, StoreError>) -> Result<Seq<char>, StoreErrorView> {
    match r {
        Ok(s) => Ok(s@),
        Err(e) => Err(e@),
    }
}

/// A result by the texts of its strings.
pub open spec fn texts_result(r: Result<Vec<String>, StoreError>) -> Result<
    Seq<Seq<char>>,
    StoreErrorView,
> {
    match r {
        Ok(v) => Ok(texts(v@)),
        Err(e) => Err(e@),
    }
}

/// A result by its numbers and the text of its message.
pub open spec fn sizes_result(r: Result<Vec<u64>, StoreError>) -> Result<Seq<u64>, StoreErrorView> {
    match r {
        Ok(v) => Ok(v@),
        Err(e) => Err(e@),
    }
}

/// What the command that puts the question printed, or why it failed.
pub fn output(query: &Query, reply: Reply) -> (r: Result<String, StoreError>)
    ensures
        text_result(r) == printed(query@, reply@),
{
    let message = match reply {
        Reply::Present(_) => String::from_str(query.complain()),
        Reply::Exited { success, stdout, stderr } => {
            if success {
                return Ok(stdout);
            }
            let words = trim(stderr.as_str());
            if words.as_str().is_empty() {
                String::from_str(query.complain())
            } else {
                words
            }
        },
        Reply::Failed(m) => {
            return Err(StoreError { kind: FailureKind::NotRun, message: m });
        },
    };
    Err(StoreError { kind: FailureKind::Failed, message })
}

// ---------------------------------------------------------------------------------------------
// Runs
// ---------------------------------------------------------------------------------------------

/// What comes of asking a store: the questions that are put to it, in their order, and a result.
#[verifier::ext_equal]
pub struct Run<T> {
    pub asked: Seq<QueryView>,
    pub result: T,
}

/// A run that asks nothing.
pub open spec fn settled<T>(result: T) -> Run<T> {
    Run { asked: Seq::empty(), result }
}

/// A run that asks `q` and goes on as `rest`.
pub open spec fn asking<T>(q: QueryView, rest: Run<T>) -> Run<T> {
    Run { asked: seq![q] + rest.asked, result: rest.result }
}

/// A run that asks `first` and goes on as `rest`.
pub open spec fn after<T>(first: Seq<QueryView>, rest: Run<T>) -> Run<T> {
    Run { asked: first + rest.asked, result: rest.result }
}

/// Asking one question and then others is asking them all.
pub broadcast proof fn lemma_after_asking<T>(q: QueryView, first: Seq<QueryView>, rest: Run<T>)
    ensures
        #[trigger] after(seq![q] + first, rest) == asking(q, after(first, rest)),
{
    assert(seq![q] + first + rest.asked =~= seq![q] + (first + rest.asked));
}

/// Asking nothing first changes nothing.
pub broadcast proof fn lemma_after_nothing<T>(rest: Run<T>)
    ensures
        #[trigger] after(Seq::<QueryView>::empty(), rest) == rest,
{
    assert(Seq::<QueryView>::empty() + rest.asked =~= rest.asked);
}

/// Where the chunk that starts at `pos` ends.
pub open spec fn chunk_end(len: int, pos: int) -> int {
    if len - pos <= CHUNK {
        len
    } else {
        pos + CHUNK
    }
}

/// The question to ask about a chunk of paths when lines are wanted: the closure of the paths, or
/// which of them are invalid.
pub open spec fn lines_query(validity: bool, chunk: Seq<Seq<char>>) -> QueryView {
    if validity {
        QueryView::Invalid(chunk)
    } else {
        QueryView::Requisites(chunk)
    }
}

/// The lines that a store gives for the paths from `pos` on, asked in chunks, behind the lines
/// `found`; the first failure ends the run.
pub open spec fn lines_from(
    validity: bool,
    paths: Seq<Seq<char>>,
    pos: int,
    found: Seq<Seq<char>>,
    store: Store,
) -> Run<Result<Seq<Seq<char>>, StoreErrorView>>
    decreases paths.len() - pos,
{
    if pos >= paths.len() {
        settled(Ok(found))
    } else {
        let end = chunk_end(paths.len() as int, pos);
        let q = lines_query(validity, paths.subrange(pos, end));
        match printed(q, answer_of(store, q)) {
            Err(e) => asking(q, settled(Err(e))),
            Ok(text) => asking(
                q,
                lines_from(validity, paths, end, found + lines_of(text), later(store, seq![q])),
            ),
        }
    }
}

/// The sizes that lines stand for, behind the sizes `found`; the first line that is no number
/// makes it fail.
pub open spec fn parsed_sizes(lines: Seq<Seq<char>>, found: Seq<u64>) -> Result<
    Seq<u64>,
    StoreErrorView,
>
    decreases lines.len(),
{
    if lines.len() == 0 {
        Ok(found)
    } else {
        match number_of(trimmed(lines[0])) {
            None => Err(invalid_data("bad size line: "@ + debug_form(lines[0]))),
            Some(n) => parsed_sizes(lines.drop_first(), found.push(n)),
        }
    }
}

/// What is reported when there are not as many sizes as paths.
pub open spec fn count_complaint(sizes: nat, paths: nat) -> Seq<char> {
    "size count "@ + decimal(sizes) + " != path count "@ + decimal(paths)
}

/// The sizes that a store gives for the paths from `pos` on, asked in chunks, behind the sizes
/// `found`; the first failure ends the run, and so does a number of sizes that is not that of the
/// paths.
pub open spec fn sizes_from(
    paths: Seq<Seq<char>>,
    pos: int,
    found: Seq<u64>,
    store: Store,
) -> Run<Result<Seq<u64>, StoreErrorView>>
    decreases paths.len() - pos,
{
    if pos >= paths.len() {
        if found.len() == paths.len() {
            settled(Ok(found))
        } else {
            settled(Err(invalid_data(count_complaint(found.len(), paths.len()))))
        }
    } else {
        let end = chunk_end(paths.len() as int, pos);
        let q = QueryView::Sizes(paths.subrange(pos, end));
        match printed(q, answer_of(store, q)) {
            Err(e) => asking(q, settled(Err(e))),
            Ok(text) => match parsed_sizes(lines_of(text), found) {
                Err(e) => asking(q, settled(Err(e))),
                Ok(more) => asking(q, sizes_from(paths, end, more, later(store, seq![q]))),
            },
        }
    }
}

/// The dead store paths among the lines of a reply.
pub open spec fn dead_of(lines: Seq<Seq<char>>) -> Seq<Seq<char>>
    decreases lines.len(),
{
    if lines.len() == 0 {
        Seq::empty()
    } else {
        let before = dead_of(lines.drop_last());
        let line = trimmed(lines.last());
        if "/nix/store/"@.is_prefix_of(line) {
            before.push(line)
        } else {
            before
        }
    }
}

/// The store paths that are dead right now.
pub open spec fn dead_run(store: Store) -> Run<Result<Seq<Seq<char>>, StoreErrorView>> {
    let q = QueryView::Dead;
    asking(
        q,
        settled(
            match printed(q, answer_of(store, q)) {
                Err(e) => Err(e),
                Ok(text) => Ok(dead_of(lines_of(text))),
            },
        ),
    )
}

// ---------------------------------------------------------------------------------------------
// Asking in chunks
// ---------------------------------------------------------------------------------------------

/// Copies the strings from `from` up to `to`.
fn chunk_of(v: &Vec<String>, from: usize, to: usize) -> (r: Vec<String>)
    requires
        from <= to <= v@.len(),
    ensures
        texts(r@) == texts(v@).subrange(from as int, to as int),
{
    let mut r: Vec<String> = Vec::new();
    let mut i: usize = from;
    while i < to
        invariant
            from <= i <= to <= v@.len(),
            r@ == v@.subrange(from as int, i as int),
        decreases to - i,
    {
        r.push(v[i].clone());
        assert(r@ =~= v@.subrange(from as int, i + 1));
        i = i + 1;
    }
    assert(texts(r@) =~= texts(v@).subrange(from as int, to as int));
    r
}

fn end_of_chunk(len: usize, pos: usize) -> (r: usize)
    requires
        pos < len,
    ensures
        r == chunk_end(len as int, pos as int),
        pos < r <= len,
{
    if len - pos <= CHUNK {
        len
    } else {
        pos + CHUNK
    }
}

/// A question by its texts.
pub open spec fn query_view(q: Option<Query>) -> Option<QueryView> {
    match q {
        Some(q) => Some(q@),
        None => None,
    }
}

/// Lines under way: the paths that they are asked for, chunk by chunk, and those that came so far.
pub struct Lines {
    pub validity: bool,
    pub paths: Vec<String>,
    pub next: usize,
    pub found: Vec<String>,
    pub failure: Option<StoreError>,
}

impl Lines {
    pub open spec fn wf(self) -> bool {
        self.next <= self.paths@.len()
    }

    /// The question that is waiting for its answer.
    pub open spec fn awaits(self) -> Option<QueryView> {
        if self.failure is Some || self.next >= self.paths@.len() {
            None
        } else {
            let end = chunk_end(self.paths@.len() as int, self.next as int);
            Some(lines_query(self.validity, texts(self.paths@).subrange(self.next as int, end)))
        }
    }

    /// What is still to come of it with the given store.
    pub open spec fn rest(self, store: Store) -> Run<Result<Seq<Seq<char>>, StoreErrorView>> {
        match self.failure {
            Some(e) => settled(Err(e@)),
            None => lines_from(
                self.validity,
                texts(self.paths@),
                self.next as int,
                texts(self.found@),
                store,
            ),
        }
    }

    /// Starts to ask for lines.
    pub fn start(validity: bool, paths: Vec<String>) -> (r: Lines)
        ensures
            r.wf(),
            r.awaits() is None <==> paths@.len() == 0,
            forall|store: Store|
                #[trigger] r.rest(store) == lines_from(
                    validity,
                    texts(paths@),
                    0,
                    Seq::empty(),
                    store,
                ),
    {
        let r = Lines { validity, paths, next: 0, found: Vec::new(), failure: None };
        assert(texts(r.found@) =~= Seq::<Seq<char>>::empty());
        r
    }

    /// The question that is waiting for its answer.
    pub fn pending(&self) -> (r: Option<Query>)
        requires
            self.wf(),
        ensures
            query_view(r) == self.awaits(),
    {
        if self.failure.is_some() || self.next >= self.paths.len() {
            None
        } else {
            let end = end_of_chunk(self.paths.len(), self.next);
            let chunk = chunk_of(&self.paths, self.next, end);
            if self.validity {
                Some(Query::Invalid(chunk))
            } else {
                Some(Query::Requisites(chunk))
            }
        }
    }

    /// Takes in the answer to the question that is waiting for it.
    pub fn feed(&mut self, reply: Reply)
        requires
            old(self).wf(),
            old(self).awaits() is Some,
        ensures
            final(self).wf(),
            forall|store: Store|
                answer_of(store, old(self).awaits()->0) == reply@ ==> #[trigger] old(self).rest(
                    store,
                ) == asking(
                    old(self).awaits()->0,
                    final(self).rest(later(store, seq![old(self).awaits()->0])),
                ),
    {
        let query = match self.pending() {
            Some(q) => q,
            None => {
                return ;
            },
        };
        let ghost before = texts(self.found@);
        let end = end_of_chunk(self.paths.len(), self.next);
        match output(&query, reply) {
            Err(e) => {
                self.failure = Some(e);
            },
            Ok(text) => {
                let mut more = lines(text.as_str());
                let ghost m = texts(more@);
                self.found.append(&mut more);
                assert(texts(self.found@) =~= before + m);
                self.next = end;
            },
        }
    }

    /// What came of it, once nothing is waiting any more.
    pub fn finish(self) -> (r: Result<Vec<String>, StoreError>)
        requires
            self.wf(),
            self.awaits() is None,
        ensures
            forall|store: Store| #[trigger] self.rest(store) == settled(texts_result(r)),
    {
        match self.failure {
            Some(e) => Err(e),
            None => Ok(self.found),
        }
    }
}

/// The transitive closure (requisites) of the union of `paths`, still to be asked for. The caller
/// puts the questions that are pending to the store and feeds the replies.
pub fn requisites(paths: Vec<String>) -> (r: Lines)
    ensures
        r.wf(),
        r.awaits() is None <==> paths@.len() == 0,
        forall|store: Store|
            #[trigger] r.rest(store) == lines_from(
                false,
                texts(paths@),
                0,
                Seq::empty(),
                store,
            ),
{
    Lines::start(false, paths)
}

/// Of `paths`, the ones Nix no longer considers valid, still to be asked for. Asking for them
/// prints the invalid paths instead of failing, so a stray invalid entry never aborts a sizing
/// pass.
pub fn invalid_paths(paths: Vec<String>) -> (r: Lines)
    ensures
        r.wf(),
        r.awaits() is None <==> paths@.len() == 0,
        forall|store: Store|
            #[trigger] r.rest(store) == lines_from(true, texts(paths@), 0, Seq::empty(), store),
{
    Lines::start(true, paths)
}

/// The store paths that are dead right now, from the reply to [`Query::Dead`]: exactly what a
/// plain `nix-collect-garbage` would delete.
pub fn dead_paths(reply: Reply) -> (r: Result<Vec<String>, StoreError>)
    ensures
        forall|store: Store|
            answer_of(store, QueryView::Dead) == reply@ ==> #[trigger] dead_run(store) == asking(
                QueryView::Dead,
                settled(texts_result(r)),
            ),
        texts_result(r) == (match printed(QueryView::Dead, reply@) {
            Err(e) => Err(e),
            Ok(text) => Ok(dead_of(lines_of(text))),
        }),
{
    match output(&Query::Dead, reply) {
        Err(e) => Err(e),
        Ok(text) => {
            let all = lines(text.as_str());
            let mut r: Vec<String> = Vec::new();
            let mut i: usize = 0;
            assert(texts(r@) =~= Seq::<Seq<char>>::empty());
            while i < all.len()
                invariant
                    i <= all@.len(),
                    texts(r@) == dead_of(texts(all@).take(i as int)),
                decreases all.len() - i,
            {
                let ghost before = texts(r@);
                let ghost now = texts(all@).take(i + 1);
                assert(now.drop_last() =~= texts(all@).take(i as int));
                assert(now.last() == all@[i as int]@);
                let line = trim(all[i].as_str());
                if starts_with(line.as_str(), "/nix/store/") {
                    let ghost l = line@;
                    r.push(line);
                    assert(texts(r@) =~= before.push(l));
                }
                i = i + 1;
            }
            assert(texts(all@).take(all@.len() as int) =~= texts(all@));
            Ok(r)
        },
    }
}

/// Reads one size per line, behind the sizes `found`.
pub fn parse_sizes(lines: &Vec<String>, found: Vec<u64>) -> (r: Result<Vec<u64>, StoreError>)
    ensures
        sizes_result(r) == parsed_sizes(texts(lines@), found@),
{
    let ghost all = texts(lines@);
    let mut r: Vec<u64> = found;
    let mut i: usize = 0;
    assert(all.skip(0) =~= all);
    while i < lines.len()
        invariant
            i <= lines@.len(),
            all == texts(lines@),
            parsed_sizes(all, found@) == parsed_sizes(all.skip(i as int), r@),
        decreases lines.len() - i,
    {
        let ghost rest = all.skip(i as int);
        assert(rest[0] == lines@[i as int]@);
        assert(rest.drop_first() =~= all.skip(i + 1));
        match read_number(trim(lines[i].as_str()).as_str()) {
            None => {
                let message = String::from_str("bad size line: ").concat(
                    quoted(lines[i].as_str()).as_str(),
                );
                return Err(StoreError { kind: FailureKind::InvalidData, message });
            },
            Some(n) => {
                r.push(n);
            },
        }
        i = i + 1;
    }
    Ok(r)
}

/// Sizes under way: the paths that they are asked for, chunk by chunk, and those that came so far.
pub struct SizeQuery {
    pub paths: Vec<String>,
    pub next: usize,
    pub found: Vec<u64>,
    pub failure: Option<StoreError>,
}

impl SizeQuery {
    pub open spec fn wf(self) -> bool {
        self.next <= self.paths@.len()
    }

    /// The question that is waiting for its answer.
    pub open spec fn awaits(self) -> Option<QueryView> {
        if self.failure is Some || self.next >= self.paths@.len() {
            None
        } else {
            let end = chunk_end(self.paths@.len() as int, self.next as int);
            Some(QueryView::Sizes(texts(self.paths@).subrange(self.next as int, end)))
        }
    }

    /// What is still to come of it with the given store.
    pub open spec fn rest(self, store: Store) -> Run<Result<Seq<u64>, StoreErrorView>> {
        match self.failure {
            Some(e) => settled(Err(e@)),
            None => sizes_from(texts(self.paths@), self.next as int, self.found@, store),
        }
    }

    /// The question that is waiting for its answer.
    pub fn pending(&self) -> (r: Option<Query>)
        requires
            self.wf(),
        ensures
            query_view(r) == self.awaits(),
    {
        if self.failure.is_some() || self.next >= self.paths.len() {
            None
        } else {
            let end = end_of_chunk(self.paths.len(), self.next);
            Some(Query::Sizes(chunk_of(&self.paths, self.next, end)))
        }
    }

    /// Takes in the answer to the question that is waiting for it.
    pub fn feed(&mut self, reply: Reply)
        requires
            old(self).wf(),
            old(self).awaits() is Some,
        ensures
            final(self).wf(),
            final(self).paths == old(self).paths,
            forall|store: Store|
                answer_of(store, old(self).awaits()->0) == reply@ ==> #[trigger] old(self).rest(
                    store,
                ) == asking(
                    old(self).awaits()->0,
                    final(self).rest(later(store, seq![old(self).awaits()->0])),
                ),
    {
        let query = match self.pending() {
            Some(q) => q,
            None => {
                return ;
            },
        };
        let end = end_of_chunk(self.paths.len(), self.next);
        match output(&query, reply) {
            Err(e) => {
                self.failure = Some(e);
            },
            Ok(text) => {
                let mut found: Vec<u64> = Vec::new();
                std::mem::swap(&mut found, &mut self.found);
                match parse_sizes(&lines(text.as_str()), found) {
                    Err(e) => {
                        self.failure = Some(e);
                    },
                    Ok(more) => {
                        self.found = more;
                        self.next = end;
                    },
                }
            },
        }
    }

    /// What came of it, once nothing is waiting any more.
    pub fn finish(self) -> (r: Result<Vec<u64>, StoreError>)
        requires
            self.wf(),
            self.awaits() is None,
        ensures
            forall|store: Store| #[trigger] self.rest(store) == settled(sizes_result(r)),
            r matches Ok(v) ==> v@.len() == self.paths@.len(),
    {
        match self.failure {
            Some(e) => Err(e),
            None => if self.found.len() == self.paths.len() {
                Ok(self.found)
            } else {
                let message = String::from_str("size count ").concat(
                    decimal_text(self.found.len() as u64).as_str(),
                ).concat(" != path count ").concat(
                    decimal_text(self.paths.len() as u64).as_str(),
                );
                Err(StoreError { kind: FailureKind::InvalidData, message })
            },
        }
    }
}

/// The own NAR size of each path, aligned to the input order, still to be asked for.
pub fn sizes(paths: Vec<String>) -> (r: SizeQuery)
    ensures
        r.wf(),
        r.paths == paths,
        r.awaits() is None <==> paths@.len() == 0,
        forall|store: Store|
            #[trigger] r.rest(store) == sizes_from(texts(paths@), 0, Seq::empty(), store),
{
    let r = SizeQuery { paths, next: 0, found: Vec::new(), failure: None };
    assert(r.found@ =~= Seq::<u64>::empty());
    r
}

// ---------------------------------------------------------------------------------------------
// Laws
// ---------------------------------------------------------------------------------------------

/// The paths that questions are about, one question after the other.
pub open spec fn asked_paths(asked: Seq<QueryView>) -> Seq<Seq<char>>
    decreases asked.len(),
{
    if asked.len() == 0 {
        Seq::empty()
    } else {
        asked[0].paths() + asked_paths(asked.drop_first())
    }
}

/// Questions for lines hold at most [`CHUNK`] paths each; together they hold the first of the
/// paths that were wanted, in their order, and all of them where no question fails.
pub proof fn law_lines_are_asked_in_chunks(
    validity: bool,
    paths: Seq<Seq<char>>,
    pos: int,
    found: Seq<Seq<char>>,
    store: Store,
)
    requires
        0 <= pos <= paths.len(),
    ensures
        ({
            let run = lines_from(validity, paths, pos, found, store);
            let asked = asked_paths(run.asked);
            &&& forall|i: int|
                0 <= i < run.asked.len() ==> (#[trigger] run.asked[i]).paths().len() <= CHUNK
            &&& asked.is_prefix_of(paths.skip(pos))
            &&& run.result is Ok ==> asked == paths.skip(pos)
        }),
    decreases paths.len() - pos,
{
    let run = lines_from(validity, paths, pos, found, store);
    if pos < paths.len() {
        let end = chunk_end(paths.len() as int, pos);
        let chunk = paths.subrange(pos, end);
        let q = lines_query(validity, chunk);
        assert(run.asked[0] == q);
        assert(asked_paths(run.asked) == chunk + asked_paths(run.asked.drop_first()));
        match printed(q, answer_of(store, q)) {
            Err(e) => {
                assert(run.asked.drop_first() =~= Seq::<QueryView>::empty());
                assert(asked_paths(Seq::<QueryView>::empty()) == Seq::<Seq<char>>::empty());
                assert(asked_paths(run.asked) =~= chunk);
            },
            Ok(text) => {
                let next = later(store, seq![q]);
                let rest = lines_from(validity, paths, end, found + lines_of(text), next);
                law_lines_are_asked_in_chunks(validity, paths, end, found + lines_of(text), next);
                assert(run.asked.drop_first() =~= rest.asked);
                assert forall|i: int| 0 <= i < run.asked.len() implies (
                #[trigger] run.asked[i]).paths().len() <= CHUNK by {
                    if i > 0 {
                        assert(run.asked[i] == rest.asked[i - 1]);
                    }
                }
                assert(paths.skip(pos) =~= chunk + paths.skip(end));
                assert(asked_paths(run.asked).is_prefix_of(paths.skip(pos)));
            },
        }
    } else {
        assert(asked_paths(run.asked) =~= paths.skip(pos));
    }
}

/// Questions for sizes hold at most [`CHUNK`] paths each; together they hold the first of the
/// paths that were wanted, in their order, and where no question fails there is one size for each
/// of the paths.
pub proof fn law_sizes_are_asked_in_chunks(
    paths: Seq<Seq<char>>,
    pos: int,
    found: Seq<u64>,
    store: Store,
)
    requires
        0 <= pos <= paths.len(),
    ensures
        ({
            let run = sizes_from(paths, pos, found, store);
            let asked = asked_paths(run.asked);
            &&& forall|i: int|
                0 <= i < run.asked.len() ==> (#[trigger] run.asked[i]).paths().len() <= CHUNK
            &&& asked.is_prefix_of(paths.skip(pos))
            &&& run.result matches Ok(sizes) ==> asked == paths.skip(pos) && sizes.len()
                == paths.len()
        }),
    decreases paths.len() - pos,
{
    let run = sizes_from(paths, pos, found, store);
    if pos < paths.len() {
        let end = chunk_end(paths.len() as int, pos);
        let chunk = paths.subrange(pos, end);
        let q = QueryView::Sizes(chunk);
        assert(run.asked[0] == q);
        assert(asked_paths(run.asked) == chunk + asked_paths(run.asked.drop_first()));
        let more = match printed(q, answer_of(store, q)) {
            Err(e) => None,
            Ok(text) => match parsed_sizes(lines_of(text), found) {
                Err(e) => None,
                Ok(more) => Some(more),
            },
        };
        match more {
            None => {
                assert(run.asked.drop_first() =~= Seq::<QueryView>::empty());
                assert(asked_paths(Seq::<QueryView>::empty()) == Seq::<Seq<char>>::empty());
                assert(asked_paths(run.asked) =~= chunk);
            },
            Some(more) => {
                let next = later(store, seq![q]);
                let rest = sizes_from(paths, end, more, next);
                law_sizes_are_asked_in_chunks(paths, end, more, next);
                assert(run.asked.drop_first() =~= rest.asked);
                assert forall|i: int| 0 <= i < run.asked.len() implies (
                #[trigger] run.asked[i]).paths().len() <= CHUNK by {
                    if i > 0 {
                        assert(run.asked[i] == rest.asked[i - 1]);
                    }
                }
                assert(paths.skip(pos) =~= chunk + paths.skip(end));
                assert(asked_paths(run.asked).is_prefix_of(paths.skip(pos)));
            },
        }
    } else {
        assert(asked_paths(run.asked) =~= paths.skip(pos));
    }
}

/// How the questions are put to `nix-store`: the options, then the paths.
pub proof fn law_questions_are_commands(p: Seq<Seq<char>>)
    ensures
        ({
            let words = |q: QueryView| q.options() + q.paths();
            &&& words(QueryView::Requisites(p)) == seq!["-q"@, "--requisites"@] + p
            &&& words(QueryView::Sizes(p)) == seq!["-q"@, "--size"@] + p
            &&& words(QueryView::Invalid(p)) == seq!["--check-validity"@, "--print-invalid"@] + p
            &&& words(QueryView::Dead) == seq!["--gc"@, "--print-dead"@]
            &&& words(QueryView::Present(p)) == p
        }),
{
    assert(QueryView::Dead.options() + QueryView::Dead.paths() =~= seq!["--gc"@, "--print-dead"@]);
    assert(QueryView::Present(p).options() + QueryView::Present(p).paths() =~= p);
}

/// What a reply comes to: a command that succeeds gives what it printed; one that fails gives its
/// own words without the white space around them, and a complaint that names the command where it
/// has none; one that could not be run gives the reason.
pub proof fn law_replies(p: Seq<Seq<char>>, q: QueryView, out: Seq<char>, err: Seq<char>)
    ensures
        printed(q, ReplyView::Exited { success: true, stdout: out, stderr: err }) == Ok::<
            Seq<char>,
            StoreErrorView,
        >(out),
        trimmed(err).len() > 0 ==> printed(
            q,
            ReplyView::Exited { success: false, stdout: out, stderr: err },
        ) == Err::<Seq<char>, StoreErrorView>(
            StoreErrorView { kind: FailureKind::Failed, message: trimmed(err) },
        ),
        printed(q, ReplyView::Failed(err)) == Err::<Seq<char>, StoreErrorView>(
            StoreErrorView { kind: FailureKind::NotRun, message: err },
        ),
        forall|b: bool| #[trigger] printed(q, ReplyView::Present(b)) is Err,
        trimmed(err).len() == 0 ==> {
            let said = |q: QueryView|
                printed(q, ReplyView::Exited { success: false, stdout: out, stderr: err });
            let failure = |m: Seq<char>|
                Err::<Seq<char>, StoreErrorView>(
                    StoreErrorView { kind: FailureKind::Failed, message: m },
                );
            &&& said(QueryView::Requisites(p)) == failure("nix-store -q --requisites failed"@)
            &&& said(QueryView::Sizes(p)) == failure("nix-store -q --size failed"@)
            &&& said(QueryView::Invalid(p)) == failure("nix-store --check-validity failed"@)
            &&& said(QueryView::Dead) == failure("nix-store --gc --print-dead failed"@)
        },
{
}

/// The dead paths are the lines that are store paths, without the white space around them, one
/// after the other.
pub proof fn law_dead_lines(a: Seq<Seq<char>>, b: Seq<Seq<char>>, line: Seq<char>)
    ensures
        dead_of(Seq::empty()) == Seq::<Seq<char>>::empty(),
        (exists|rest: Seq<char>| trimmed(line) == #[trigger] ("/nix/store/"@ + rest)) ==> dead_of(
            seq![line],
        ) == seq![trimmed(line)],
        (forall|rest: Seq<char>| trimmed(line) != #[trigger] ("/nix/store/"@ + rest)) ==> dead_of(
            seq![line],
        ) == Seq::<Seq<char>>::empty(),
        dead_of(a + b) == dead_of(a) + dead_of(b),
    decreases b.len(),
{
    let store = "/nix/store/"@;
    let none = Seq::<Seq<char>>::empty();
    let one = seq![line];
    let t = trimmed(line);
    assert(one.drop_last() =~= none);
    assert(one.last() == line);
    assert(dead_of(one.drop_last()) == none);
    if exists|rest: Seq<char>| t == #[trigger] (store + rest) {
        let rest = choose|rest: Seq<char>| t == #[trigger] (store + rest);
        assert(t.subrange(0, store.len() as int) =~= store);
        assert(dead_of(one) =~= seq![t]);
    }
    if store.is_prefix_of(t) {
        assert(t =~= store + t.skip(store.len() as int));
    }
    if b.len() == 0 {
        assert(a + b =~= a);
        assert(dead_of(a) + dead_of(b) =~= dead_of(a));
    } else {
        law_dead_lines(a, b.drop_last(), line);
        assert((a + b).drop_last() =~= a + b.drop_last());
        assert((a + b).last() == b.last());
        assert(dead_of(a + b) =~= dead_of(a) + dead_of(b));
    }
}

/// One size is read from each line, in their order, behind those that came before; and the first
/// line that is no number, white space aside, ends that with an error that shows it.
pub proof fn law_sizes_are_read_line_by_line(lines: Seq<Seq<char>>, found: Seq<u64>)
    ensures
        match parsed_sizes(lines, found) {
            Ok(v) => {
                &&& v.len() == found.len() + lines.len()
                &&& v.take(found.len() as int) == found
                &&& forall|k: int|
                    0 <= k < lines.len() ==> number_of(trimmed(#[trigger] lines[k])) == Some(
                        v[found.len() + k],
                    )
            },
            Err(e) => exists|k: int|
                0 <= k < lines.len() && number_of(trimmed(#[trigger] lines[k])) is None && e
                    == (StoreErrorView {
                    kind: FailureKind::InvalidData,
                    message: "bad size line: "@ + debug_form(lines[k]),
                }) && forall|j: int|
                    0 <= j < k ==> number_of(trimmed(#[trigger] lines[j])) is Some,
        },
    decreases lines.len(),
{
    if lines.len() == 0 {
        assert(found.take(found.len() as int) =~= found);
    } else {
        let rest = lines.drop_first();
        match number_of(trimmed(lines[0])) {
            None => {
                assert(number_of(trimmed(lines[0])) is None);
            },
            Some(n) => {
                let more = found.push(n);
                law_sizes_are_read_line_by_line(rest, more);
                match parsed_sizes(lines, found) {
                    Ok(v) => {
                        assert(v.take(found.len() as int) =~= v.take(more.len() as int).take(
                            found.len() as int,
                        ));
                        assert(more.take(found.len() as int) =~= found);
                        assert(v[found.len() as int] == v.take(more.len() as int)[found.len() as int]);
                        assert forall|k: int| 0 <= k < lines.len() implies number_of(
                            trimmed(#[trigger] lines[k]),
                        ) == Some(v[found.len() + k]) by {
                            if k > 0 {
                                assert(rest[k - 1] == lines[k]);
                            }
                        }
                    },
                    Err(e) => {
                        let k = choose|k: int|
                            0 <= k < rest.len() && number_of(trimmed(#[trigger] rest[k])) is None
                                && e == (StoreErrorView {
                                kind: FailureKind::InvalidData,
                                message: "bad size line: "@ + debug_form(rest[k]),
                            }) && forall|j: int|
                                0 <= j < k ==> number_of(trimmed(#[trigger] rest[j])) is Some;
                        assert(lines[k + 1] == rest[k]);
                        assert forall|j: int| 0 <= j < k + 1 implies number_of(
                            trimmed(#[trigger] lines[j]),
                        ) is Some by {
                            if j > 0 {
                                assert(rest[j - 1] == lines[j]);
                            }
                        }
                    },
                }
            },
        }
    }
}

/// A question about few paths is one question: its answer, line by line, is what is found; and what
/// it fails with is what the whole fails with. Of more paths the first 256 are asked about first.
pub proof fn law_first_question(validity: bool, paths: Seq<Seq<char>>, store: Store)
    requires
        paths.len() > 0,
    ensures
        ({
            let few = if paths.len() <= 256 {
                paths
            } else {
                paths.take(256)
            };
            let q = if validity {
                QueryView::Invalid(few)
            } else {
                QueryView::Requisites(few)
            };
            let run = lines_from(validity, paths, 0, Seq::empty(), store);
            &&& run.asked.len() > 0 && run.asked[0] == q
            &&& match printed(q, answer_of(store, q)) {
                Err(e) => run.result == Err::<Seq<Seq<char>>, StoreErrorView>(e) && run.asked.len()
                    == 1,
                Ok(text) => paths.len() <= 256 ==> run.result == Ok::<
                    Seq<Seq<char>>,
                    StoreErrorView,
                >(lines_of(text)) && run.asked.len() == 1,
            }
        }),
{
    let end = chunk_end(paths.len() as int, 0);
    assert(paths.subrange(0, end) =~= if paths.len() <= 256 {
        paths
    } else {
        paths.take(256)
    });
    let q = lines_query(validity, paths.subrange(0, end));
    let none = Seq::<Seq<char>>::empty();
    let run = lines_from(validity, paths, 0, none, store);
    assert(run.asked[0] == q);
    match printed(q, answer_of(store, q)) {
        Err(e) => {
            assert(run.asked =~= seq![q]);
        },
        Ok(text) => {
            let rest = lines_from(validity, paths, end, none + lines_of(text), later(store, seq![q]));
            assert(run == asking(q, rest));
            if paths.len() <= 256 {
                assert(rest == settled(
                    Ok::<Seq<Seq<char>>, StoreErrorView>(none + lines_of(text)),
                ));
                assert(none + lines_of(text) =~= lines_of(text));
                assert(run.asked =~= seq![q]);
            }
        },
    }
}

/// The sizes of few paths are the answer to one question, one number on each line; there must be as
/// many of them as paths, or it fails and says how many there were. Of no paths nothing is asked.
pub proof fn law_sizes_of_few_paths(paths: Seq<Seq<char>>, store: Store)
    requires
        paths.len() <= 256,
    ensures
        ({
            let q = QueryView::Sizes(paths);
            let run = sizes_from(paths, 0, Seq::empty(), store);
            let invalid = |m: Seq<char>|
                Err::<Seq<u64>, StoreErrorView>(
                    StoreErrorView { kind: FailureKind::InvalidData, message: m },
                );
            if paths.len() == 0 {
                run.asked.len() == 0 && run.result == Ok::<Seq<u64>, StoreErrorView>(Seq::empty())
            } else {
                &&& run.asked == seq![q]
                &&& run.result == match printed(q, answer_of(store, q)) {
                    Err(e) => Err(e),
                    Ok(text) => match parsed_sizes(lines_of(text), Seq::empty()) {
                        Err(e) => Err(e),
                        Ok(v) => if v.len() == paths.len() {
                            Ok(v)
                        } else {
                            invalid(
                                "size count "@ + decimal(v.len()) + " != path count "@ + decimal(
                                    paths.len(),
                                ),
                            )
                        },
                    },
                }
            }
        }),
{
    if paths.len() > 0 {
        let end = chunk_end(paths.len() as int, 0);
        assert(end == paths.len());
        assert(paths.subrange(0, end) =~= paths);
        let q = QueryView::Sizes(paths);
        let none = Seq::<u64>::empty();
        let run = sizes_from(paths, 0, none, store);
        match printed(q, answer_of(store, q)) {
            Err(e) => {},
            Ok(text) => match parsed_sizes(lines_of(text), none) {
                Err(e) => {},
                Ok(v) => {
                    let rest = sizes_from(paths, end, v, later(store, seq![q]));
                    assert(run == asking(q, rest));
                    assert(rest.asked == Seq::<QueryView>::empty());
                },
            },
        }
        assert(run.asked =~= seq![q]);
    } else {
        assert(Seq::<u64>::empty().len() == 0);
    }
}

/// What the store is asked for: the closure of paths by their requisites, which of them are invalid
/// by their validity, their sizes by their sizes, each about the paths themselves.
pub proof fn law_what_is_asked_for(
    paths: Vec<String>,
    closure: Lines,
    invalid: Lines,
    own: SizeQuery,
    store: Store,
)
    requires
        0 < paths@.len() <= 256,
        call_ensures(requisites, (paths,), closure),
        call_ensures(invalid_paths, (paths,), invalid),
        call_ensures(sizes, (paths,), own),
    ensures
        closure.rest(store).asked == seq![QueryView::Requisites(texts(paths@))],
        invalid.rest(store).asked == seq![QueryView::Invalid(texts(paths@))],
        own.rest(store).asked == seq![QueryView::Sizes(texts(paths@))],
{
    let p = texts(paths@);
    let none = Seq::<Seq<char>>::empty();
    assert(closure.rest(store) == lines_from(false, p, 0, none, store));
    assert(invalid.rest(store) == lines_from(true, p, 0, none, store));
    assert(own.rest(store) == sizes_from(p, 0, Seq::empty(), store));
    law_sizes_of_few_paths(p, store);
    let end = chunk_end(p.len() as int, 0);
    assert(p.subrange(0, end) =~= p);
    assert forall|validity: bool| #[trigger]
        lines_from(validity, p, 0, none, store).asked == seq![lines_query(validity, p)] by {
        let q = lines_query(validity, p);
        let run = lines_from(validity, p, 0, none, store);
        if let Ok(text) = printed(q, answer_of(store, q)) {
            let rest = lines_from(validity, p, end, none + lines_of(text), later(store, seq![q]));
            assert(run == asking(q, rest));
            assert(rest.asked == Seq::<QueryView>::empty());
        }
        assert(run.asked =~= seq![q]);
    }
}

} // verus!
