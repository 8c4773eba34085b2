//! Rendering a run: for each configured source, in order, the banner (when
//! several sources are configured), the requested prefix of its content, and
//! the error line for a source that could not be opened. The whole run is
//! modelled as the text it sends to standard output and to standard error,
//! together with the fatal error that aborts it, if any.

use crate::config::CountMode;
use crate::lines::head_bytes;
use crate::lines::head_lines;
use crate::lines::line_prefix_len;
use vstd::math::min;
use vstd::prelude::*;
use vstd::string::*;
use vstd::utf8::decode_utf8;
use vstd::utf8::valid_utf8;

verus! {

/// The characters that lossy UTF-8 decoding yields for the given bytes:
/// their decoding, with each invalid sequence replaced.
pub uninterp spec fn lossy_of(bytes: Seq<u8>) -> Seq<char>;

/// Relies on String::from_utf8_lossy: the result is a function of the bytes
/// alone, and valid UTF-8 decodes unchanged.
#[verifier::external_body]
fn lossy_text(bytes: &Vec<u8>) -> (r: String)
    ensures
        r@ == lossy_of(bytes@),
        valid_utf8(bytes@) ==> r@ == decode_utf8(bytes@),
{
    String::from_utf8_lossy(bytes).into_owned()
}

/// Relies on str::from_utf8: it succeeds exactly on valid UTF-8, and then
/// returns the decoded characters of the given bytes.
#[verifier::external_body]
fn utf8_text(bytes: &Vec<u8>) -> (r: Option<String>)
    ensures
        match r {
            Some(t) => valid_utf8(bytes@) && t@ == decode_utf8(bytes@),
            None => !valid_utf8(bytes@),
        },
{
    match std::str::from_utf8(bytes) {
        Ok(t) => Some(t.to_owned()),
        Err(_) => None,
    }
}

/// The banner announcing a source: nothing when it is the only source,
/// otherwise its name between arrows, preceded by a blank line for every
/// source after the first.
pub open spec fn banner_chars(name: Seq<char>, index: int, total: int) -> Seq<char> {
    if total <= 1 {
        seq![]
    } else {
        (if index > 0 {
            "\n"@
        } else {
            seq![]
        }) + "==> "@ + name + " <==\n"@
    }
}

/// The error line reporting a source that could not be opened.
pub open spec fn open_error_chars(name: Seq<char>, detail: Seq<char>) -> Seq<char> {
    "Failed to open "@ + name + ": "@ + detail + "\n"@
}

/// The fatal error reported when a source's emitted prefix is not valid
/// UTF-8 and so cannot be read as lines of text.
pub open spec fn read_error_chars(name: Seq<char>) -> Seq<char> {
    "Failed to read "@ + name + ": invalid UTF-8"@
}

/// Builds the banner for the source at `index` out of `total` sources.
pub fn banner_line(name: &str, index: usize, total: usize) -> (r: String)
    ensures
        r@ == banner_chars(name@, index as int, total as int),
{
    let mut out = String::new();
    if total <= 1 {
        assert(out@ =~= banner_chars(name@, index as int, total as int));
        return out;
    }
    if index > 0 {
        out.append("\n");
    }
    out.append("==> ");
    out.append(name);
    out.append(" <==\n");
    assert(out@ =~= banner_chars(name@, index as int, total as int));
    out
}

/// Builds the error line for a source whose open failed with `detail`.
pub fn open_error_line(name: &str, detail: &str) -> (r: String)
    ensures
        r@ == open_error_chars(name@, detail@),
{
    let mut out = String::new();
    out.append("Failed to open ");
    out.append(name);
    out.append(": ");
    out.append(detail);
    out.append("\n");
    assert(out@ =~= open_error_chars(name@, detail@));
    out
}

/// Builds the fatal error for a source whose prefix is not valid UTF-8.
pub fn read_error_line(name: &str) -> (r: String)
    ensures
        r@ == read_error_chars(name@),
{
    let mut out = String::new();
    out.append("Failed to read ");
    out.append(name);
    out.append(": invalid UTF-8");
    assert(out@ =~= read_error_chars(name@));
    out
}

/// What became of one source when its turn came: its full raw content, or
/// the reason it could not be opened.
pub enum SourceOutcome {
    Opened(Vec<u8>),
    Unopened(String),
}

/// The text a successfully opened source contributes in the given mode:
/// its first lines decoded as text, or its first bytes decoded lossily.
/// `None` marks a line-mode prefix that is not valid UTF-8, which is fatal.
pub open spec fn body_chars(mode: CountMode, data: Seq<u8>) -> Option<Seq<char>> {
    match mode {
        CountMode::Bytes(n) => Some(lossy_of(data.take(min(n as int, data.len() as int)))),
        CountMode::Lines(n) => {
            let p = data.take(line_prefix_len(data, n as nat) as int);
            if valid_utf8(p) {
                Some(decode_utf8(p))
            } else {
                None
            }
        },
    }
}

/// The first `count` bytes of a source as displayed in byte mode: the raw
/// prefix, decoded with invalid sequences replaced rather than rejected.
pub fn byte_body(content: &Vec<u8>, count: usize) -> (r: String)
    ensures
        r@ == lossy_of(content@.take(min(count as int, content@.len() as int))),
        Some(r@) == body_chars(CountMode::Bytes(count), content@),
{
    let prefix = head_bytes(content, count);
    lossy_text(&prefix)
}

/// The first `count` lines of a source as displayed in line mode, or `None`
/// when those lines are not valid UTF-8.
pub fn line_body(content: &Vec<u8>, count: usize) -> (r: Option<String>)
    ensures
        match r {
            Some(t) => Some(t@) == body_chars(CountMode::Lines(count), content@),
            None => body_chars(CountMode::Lines(count), content@) is None,
        },
{
    let prefix = head_lines(content, count);
    utf8_text(&prefix)
}

/// Everything one run sends out: the standard-output text, the
/// standard-error text, and the fatal error that aborted it, if any.
pub struct RunOutput {
    pub out: String,
    pub err: String,
    pub fatal: Option<String>,
}

/// The text of a run from source `i` on: output, error lines, and the fatal
/// error, if one aborts the run. A source that failed to open contributes
/// only its error line; a fatal source contributes its banner and stops the
/// run.
pub open spec fn run_text_from(
    names: Seq<Seq<char>>,
    outcomes: Seq<SourceOutcome>,
    mode: CountMode,
    total: int,
    i: nat,
) -> (Seq<char>, Seq<char>, Option<Seq<char>>)
    decreases outcomes.len() - i,
{
    if i >= outcomes.len() || i >= names.len() {
        (seq![], seq![], None)
    } else {
        match outcomes[i as int] {
            SourceOutcome::Unopened(detail) => {
                let rest = run_text_from(names, outcomes, mode, total, i + 1);
                (rest.0, open_error_chars(names[i as int], detail@) + rest.1, rest.2)
            },
            SourceOutcome::Opened(data) => match body_chars(mode, data@) {
                Some(body) => {
                    let rest = run_text_from(names, outcomes, mode, total, i + 1);
                    (banner_chars(names[i as int], i as int, total) + body + rest.0, rest.1, rest.2)
                },
                None => (
                    banner_chars(names[i as int], i as int, total),
                    seq![],
                    Some(read_error_chars(names[i as int])),
                ),
            },
        }
    }
}

/// The text of a whole run over the named sources.
pub open spec fn run_text(
    names: Seq<Seq<char>>,
    outcomes: Seq<SourceOutcome>,
    mode: CountMode,
) -> (Seq<char>, Seq<char>, Option<Seq<char>>) {
    run_text_from(names, outcomes, mode, names.len() as int, 0)
}

/// Renders a whole run: the requested prefix of every opened source in
/// order, each under its banner when several sources are configured, error
/// lines for sources that could not be opened, stopping only at a fatal
/// line-mode decoding failure.
pub fn render_run(sources: &Vec<String>, outcomes: &Vec<SourceOutcome>, mode: &CountMode) -> (r:
    RunOutput)
    requires
        sources@.len() == outcomes@.len(),
    ensures
        ({
            let t = run_text(sources.deep_view(), outcomes@, *mode);
            &&& r.out@ == t.0
            &&& r.err@ == t.1
            &&& match (r.fatal, t.2) {
                (Some(f), Some(g)) => f@ == g,
                (None, None) => true,
                _ => false,
            }
        }),
{
    let ghost names = sources.deep_view();
    let ghost total = names.len() as int;
    let mut out = String::new();
    let mut err = String::new();
    let mut i: usize = 0;
    proof {
        assert(out@ + run_text_from(names, outcomes@, *mode, total, 0).0 =~= run_text_from(
            names,
            outcomes@,
            *mode,
            total,
            0,
        ).0);
        assert(err@ + run_text_from(names, outcomes@, *mode, total, 0).1 =~= run_text_from(
            names,
            outcomes@,
            *mode,
            total,
            0,
        ).1);
    }
    while i < sources.len()
        invariant
            i <= sources@.len(),
            sources@.len() == outcomes@.len(),
            names == sources.deep_view(),
            total == names.len() as int,
            ({
                let t = run_text_from(names, outcomes@, *mode, total, i as nat);
                &&& run_text(names, outcomes@, *mode).0 == out@ + t.0
                &&& run_text(names, outcomes@, *mode).1 == err@ + t.1
                &&& run_text(names, outcomes@, *mode).2 == t.2
            }),
        decreases sources@.len() - i,
    {
        let ghost t_here = run_text_from(names, outcomes@, *mode, total, i as nat);
        let ghost t_next = run_text_from(names, outcomes@, *mode, total, (i + 1) as nat);
        let name = &sources[i];
        proof {
            assert(names[i as int] == name@);
        }
        match &outcomes[i] {
            SourceOutcome::Unopened(detail) => {
                let line = open_error_line(name.as_str(), detail.as_str());
                err.append(line.as_str());
                proof {
                    assert(t_here.0 == t_next.0);
                    assert(t_here.1 =~= open_error_chars(name@, detail@) + t_next.1);
                    assert(run_text(names, outcomes@, *mode).1 =~= err@ + t_next.1);
                }
            },
            SourceOutcome::Opened(data) => {
                let banner = banner_line(name.as_str(), i, sources.len());
                out.append(banner.as_str());
                match mode {
                    CountMode::Bytes(n) => {
                        let body = byte_body(data, *n);
                        out.append(body.as_str());
                        proof {
                            assert(t_here.0 =~= banner@ + body@ + t_next.0);
                            assert(run_text(names, outcomes@, *mode).0 =~= out@ + t_next.0);
                        }
                    },
                    CountMode::Lines(n) => {
                        match line_body(data, *n) {
                            Some(body) => {
                                out.append(body.as_str());
                                proof {
                                    assert(t_here.0 =~= banner@ + body@ + t_next.0);
                                    assert(run_text(names, outcomes@, *mode).0 =~= out@
                                        + t_next.0);
                                }
                            },
                            None => {
                                let fatal = read_error_line(name.as_str());
                                proof {
                                    assert(t_here.0 =~= banner@);
                                    assert(t_here.1 =~= Seq::<char>::empty());
                                    assert(run_text(names, outcomes@, *mode).0 =~= out@);
                                    assert(run_text(names, outcomes@, *mode).1 =~= err@);
                                }
                                return RunOutput { out, err, fatal: Some(fatal) };
                            },
                        }
                    },
                }
            },
        }
        i = i + 1;
    }
    proof {
        let t_end = run_text_from(names, outcomes@, *mode, total, i as nat);
        assert(t_end.0 =~= Seq::<char>::empty());
        assert(t_end.1 =~= Seq::<char>::empty());
        assert(run_text(names, outcomes@, *mode).0 =~= out@);
        assert(run_text(names, outcomes@, *mode).1 =~= err@);
    }
    RunOutput { out, err, fatal: None }
}

/// What source `i` contributes to standard output when no source is fatal:
/// its banner and body when it opened, nothing when it did not.
pub open spec fn stdout_piece(
    names: Seq<Seq<char>>,
    outcomes: Seq<SourceOutcome>,
    mode: CountMode,
    total: int,
    i: int,
) -> Seq<char> {
    match outcomes[i] {
        SourceOutcome::Opened(d) => banner_chars(names[i], i, total) + body_chars(
            mode,
            d@,
        )->Some_0,
        SourceOutcome::Unopened(_) => seq![],
    }
}

/// What source `i` contributes to standard error: its error line when it
/// failed to open, nothing when it opened.
pub open spec fn stderr_piece(names: Seq<Seq<char>>, outcomes: Seq<SourceOutcome>, i: int) -> Seq<
    char,
> {
    match outcomes[i] {
        SourceOutcome::Opened(_) => seq![],
        SourceOutcome::Unopened(detail) => open_error_chars(names[i], detail@),
    }
}

proof fn lemma_flatten_of_empties(parts: Seq<Seq<char>>)
    requires
        forall|i: int| 0 <= i < parts.len() ==> #[trigger] parts[i] == Seq::<char>::empty(),
    ensures
        parts.flatten() == Seq::<char>::empty(),
    decreases parts.len(),
{
    if parts.len() != 0 {
        lemma_flatten_of_empties(parts.drop_first());
        assert(parts.first() + parts.drop_first().flatten() =~= Seq::<char>::empty());
    }
}

proof fn lemma_run_decomposition_from(
    names: Seq<Seq<char>>,
    outcomes: Seq<SourceOutcome>,
    mode: CountMode,
    total: int,
    i: nat,
)
    requires
        names.len() == outcomes.len(),
        total == names.len() as int,
        i <= outcomes.len(),
        forall|j: int|
            0 <= j < outcomes.len() ==> (#[trigger] outcomes[j] matches SourceOutcome::Opened(d)
                ==> body_chars(mode, d@) is Some),
    ensures
        run_text_from(names, outcomes, mode, total, i).0 == Seq::new(
            (outcomes.len() - i) as nat,
            |j: int| stdout_piece(names, outcomes, mode, total, i + j),
        ).flatten(),
        run_text_from(names, outcomes, mode, total, i).1 == Seq::new(
            (outcomes.len() - i) as nat,
            |j: int| stderr_piece(names, outcomes, i + j),
        ).flatten(),
        run_text_from(names, outcomes, mode, total, i).2 is None,
    decreases outcomes.len() - i,
{
    let souts = Seq::new(
        (outcomes.len() - i) as nat,
        |j: int| stdout_piece(names, outcomes, mode, total, i + j),
    );
    let serrs = Seq::new((outcomes.len() - i) as nat, |j: int| stderr_piece(names, outcomes, i + j));
    if i == outcomes.len() {
        assert(souts =~= Seq::<Seq<char>>::empty());
        assert(serrs =~= Seq::<Seq<char>>::empty());
        assert(Seq::<Seq<char>>::empty().flatten() =~= Seq::<char>::empty());
    } else {
        lemma_run_decomposition_from(names, outcomes, mode, total, i + 1);
        let t = run_text_from(names, outcomes, mode, total, i);
        let rest = run_text_from(names, outcomes, mode, total, i + 1);
        assert(souts.first() == stdout_piece(names, outcomes, mode, total, i as int));
        assert(souts.drop_first() =~= Seq::new(
            (outcomes.len() - i - 1) as nat,
            |j: int| stdout_piece(names, outcomes, mode, total, i + 1 + j),
        ));
        assert(serrs.first() == stderr_piece(names, outcomes, i as int));
        assert(serrs.drop_first() =~= Seq::new(
            (outcomes.len() - i - 1) as nat,
            |j: int| stderr_piece(names, outcomes, i + 1 + j),
        ));
        assert(souts.flatten() == souts.first() + souts.drop_first().flatten());
        assert(serrs.flatten() == serrs.first() + serrs.drop_first().flatten());
        match outcomes[i as int] {
            SourceOutcome::Opened(d) => {
                assert(t.0 =~= souts.first() + rest.0);
                assert(t.1 =~= serrs.first() + rest.1);
            },
            SourceOutcome::Unopened(detail) => {
                assert(t.0 =~= souts.first() + rest.0);
                assert(t.1 =~= serrs.first() + rest.1);
            },
        }
    }
}

/// When every opened source decodes, the run completes: standard output is
/// exactly the banner-and-body of each opened source in order, standard
/// error is exactly the error line of each unopened source in order, and a
/// source's contribution does not depend on how the others fared.
pub proof fn lemma_run_decomposition(
    names: Seq<Seq<char>>,
    outcomes: Seq<SourceOutcome>,
    mode: CountMode,
)
    requires
        names.len() == outcomes.len(),
        forall|j: int|
            0 <= j < outcomes.len() ==> (#[trigger] outcomes[j] matches SourceOutcome::Opened(d)
                ==> body_chars(mode, d@) is Some),
    ensures
        run_text(names, outcomes, mode).0 == Seq::new(
            outcomes.len(),
            |i: int| stdout_piece(names, outcomes, mode, names.len() as int, i),
        ).flatten(),
        run_text(names, outcomes, mode).1 == Seq::new(
            outcomes.len(),
            |i: int| stderr_piece(names, outcomes, i),
        ).flatten(),
        run_text(names, outcomes, mode).2 is None,
{
    lemma_run_decomposition_from(names, outcomes, mode, names.len() as int, 0);
    assert(Seq::new(outcomes.len(), |i: int| stdout_piece(names, outcomes, mode, names.len() as int, i))
        =~= Seq::new((outcomes.len() - 0) as nat, |j: int| stdout_piece(names, outcomes, mode, names.len() as int, 0 + j)));
    assert(Seq::new(outcomes.len(), |i: int| stderr_piece(names, outcomes, i)) =~= Seq::new(
        (outcomes.len() - 0) as nat,
        |j: int| stderr_piece(names, outcomes, 0 + j),
    ));
}

/// With exactly one source, no banner appears: the run's standard output
/// is the source's body and nothing else.
pub proof fn lemma_single_source_no_banner(
    names: Seq<Seq<char>>,
    outcomes: Seq<SourceOutcome>,
    mode: CountMode,
)
    requires
        names.len() == 1,
        outcomes.len() == 1,
        outcomes[0] matches SourceOutcome::Opened(d) && body_chars(mode, d@) is Some,
    ensures
        banner_chars(names[0], 0, 1) == Seq::<char>::empty(),
        run_text(names, outcomes, mode).0 == body_chars(mode, outcomes[0]->Opened_0@)->Some_0,
        run_text(names, outcomes, mode).1 == Seq::<char>::empty(),
        run_text(names, outcomes, mode).2 is None,
{
    let rest = run_text_from(names, outcomes, mode, 1, 1);
    assert(rest.0 =~= Seq::<char>::empty());
    assert(run_text(names, outcomes, mode).0 =~= body_chars(mode, outcomes[0]->Opened_0@)->Some_0);
}

/// With two or more sources that all open and decode, standard output is
/// exactly one banner-then-body per source in order; every banner names its
/// source between arrows, and every banner but the first is preceded by a
/// blank line.
pub proof fn lemma_multi_source_banners(
    names: Seq<Seq<char>>,
    outcomes: Seq<SourceOutcome>,
    mode: CountMode,
)
    requires
        names.len() == outcomes.len(),
        names.len() >= 2,
        forall|i: int|
            0 <= i < outcomes.len() ==> (#[trigger] outcomes[i] matches SourceOutcome::Opened(d)
                && body_chars(mode, d@) is Some),
    ensures
        run_text(names, outcomes, mode).0 == Seq::new(
            outcomes.len(),
            |i: int|
                banner_chars(names[i], i, names.len() as int) + body_chars(
                    mode,
                    outcomes[i]->Opened_0@,
                )->Some_0,
        ).flatten(),
        forall|i: int|
            0 <= i < names.len() ==> #[trigger] banner_chars(names[i], i, names.len() as int) =~= (
            if i == 0 {
                Seq::<char>::empty()
            } else {
                "\n"@
            }) + "==> "@ + names[i] + " <==\n"@,
        run_text(names, outcomes, mode).1 == Seq::<char>::empty(),
        run_text(names, outcomes, mode).2 is None,
{
    lemma_run_decomposition(names, outcomes, mode);
    let total = names.len() as int;
    assert(Seq::new(outcomes.len(), |i: int| stdout_piece(names, outcomes, mode, total, i)) =~= Seq::new(
        outcomes.len(),
        |i: int|
            banner_chars(names[i], i, total) + body_chars(mode, outcomes[i]->Opened_0@)->Some_0,
    ));
    let serrs = Seq::new(outcomes.len(), |i: int| stderr_piece(names, outcomes, i));
    assert forall|i: int| 0 <= i < serrs.len() implies #[trigger] serrs[i]
        == Seq::<char>::empty() by {
        assert(outcomes[i] is Opened);
    }
    lemma_flatten_of_empties(serrs);
}

/// A source that fails to open is reported and isolated: its error line,
/// which names it, stands in standard error, the run still completes, and
/// every opened source still contributes exactly its own banner and body.
pub proof fn lemma_open_failure_reported(
    names: Seq<Seq<char>>,
    outcomes: Seq<SourceOutcome>,
    mode: CountMode,
    i: int,
)
    requires
        names.len() == outcomes.len(),
        0 <= i < outcomes.len(),
        outcomes[i] matches SourceOutcome::Unopened(detail),
        forall|j: int|
            0 <= j < outcomes.len() ==> (#[trigger] outcomes[j] matches SourceOutcome::Opened(d)
                ==> body_chars(mode, d@) is Some),
    ensures
        run_text(names, outcomes, mode).2 is None,
        run_text(names, outcomes, mode).1 == Seq::new(
            outcomes.len(),
            |j: int| stderr_piece(names, outcomes, j),
        ).flatten(),
        stderr_piece(names, outcomes, i) == open_error_chars(names[i], outcomes[i]->Unopened_0@),
        stdout_piece(names, outcomes, mode, names.len() as int, i) == Seq::<char>::empty(),
        forall|j: int|
            0 <= j < outcomes.len() ==> (#[trigger] outcomes[j] matches SourceOutcome::Opened(d)
                ==> stdout_piece(names, outcomes, mode, names.len() as int, j) == banner_chars(
                names[j],
                j,
                names.len() as int,
            ) + body_chars(mode, d@)->Some_0),
{
    lemma_run_decomposition(names, outcomes, mode);
}

} // verus!
