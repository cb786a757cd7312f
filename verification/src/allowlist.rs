//! Who may connect: the keys of a file with one public key on a line.

use russh::keys::PublicKey;
use vstd::prelude::*;

use crate::agent::{ensure_supported, fingerprint, AgentError};

verus! {

/// Why a line gives no key.
#[derive(Debug, Clone, Copy, PartialEq, Eq)]
pub enum KeyFault {
    /// The line is no public key.
    Parse,
    /// The key has no binary form.
    Encode,
}

/// The binary form of the public key that a line holds.
pub uninterp spec fn key_read(line: Seq<char>) -> Result<Seq<u8>, KeyFault>;

pub open spec fn key_view(key: Result<Vec<u8>, KeyFault>) -> Result<Seq<u8>, KeyFault> {
    match key {
        Ok(blob) => Ok(blob@),
        Err(fault) => Err(fault),
    }
}

/// Calls `PublicKey::from_openssh` and `PublicKey::to_bytes`. What they give is a
/// function of the line.
#[verifier::external_body]
fn read_key(line: &str) -> (key: Result<Vec<u8>, KeyFault>)
    ensures
        key_view(key) == key_read(line@),
{
    let key = PublicKey::from_openssh(line).map_err(|_| KeyFault::Parse)?;
    key.to_bytes().map_err(|_| KeyFault::Encode)
}

/// Whether `rest` is what stands between the white space at the two ends of a text.
pub open spec fn bared(text: Seq<char>, rest: Seq<char>) -> bool {
    &&& exists|a: int, b: int|
        0 <= a <= b <= text.len() && rest == #[trigger] text.subrange(a, b) && (forall|i: int|
            0 <= i < a || b <= i < text.len() ==> crate::text::white_space(#[trigger] text[i]))
    &&& rest.len() > 0 ==> !crate::text::white_space(rest[0]) && !crate::text::white_space(
        rest.last(),
    )
}

/// Calls `str::trim`, which takes off the characters at both ends of the text that
/// have the property White_Space.
#[verifier::external_body]
fn str_trim(text: &str) -> (rest: &str)
    ensures
        bared(text@, rest@),
{
    text.trim()
}

/// A text without the white space at its beginning.
pub open spec fn trimmed_start(text: Seq<char>) -> Seq<char>
    decreases text.len(),
{
    if text.len() > 0 && crate::text::white_space(text[0]) {
        trimmed_start(text.drop_first())
    } else {
        text
    }
}

/// A text without the white space at both its ends.
pub open spec fn stripped(text: Seq<char>) -> Seq<char> {
    trimmed_start(crate::text::trimmed(text))
}

/// A line without the carriage return at its end.
pub open spec fn uncarried(line: Seq<char>) -> Seq<char> {
    if line.len() > 0 && line.last() == '\r' {
        line.drop_last()
    } else {
        line
    }
}

/// The lines of a text that have ended: at a line feed, or at a carriage return
/// and a line feed.
pub open spec fn ended_lines(text: Seq<char>) -> Seq<Seq<char>>
    decreases text.len(),
{
    if text.len() == 0 {
        seq![]
    } else if text.last() == '\n' {
        ended_lines(text.drop_last()).push(uncarried(open_line(text.drop_last())))
    } else {
        ended_lines(text.drop_last())
    }
}

/// What comes after the last line feed of a text.
pub open spec fn open_line(text: Seq<char>) -> Seq<char>
    decreases text.len(),
{
    if text.len() == 0 || text.last() == '\n' {
        seq![]
    } else {
        open_line(text.drop_last()).push(text.last())
    }
}

/// The lines of a text.
pub open spec fn lines_of(text: Seq<char>) -> Seq<Seq<char>> {
    if open_line(text).len() == 0 {
        ended_lines(text)
    } else {
        ended_lines(text).push(open_line(text))
    }
}

/// What can be wrong with the list.
#[derive(Debug, Clone, PartialEq, Eq)]
pub enum AllowlistError {
    /// A line gives no key.
    Key(KeyFault),
    /// A key is of the wrong kind.
    Agent(AgentError),
    /// There is no key.
    Empty,
}

#[verifier::ext_equal]
pub enum AllowlistErrorView {
    Key(KeyFault),
    Agent(crate::agent::AgentErrorView),
    Empty,
}

impl View for AllowlistError {
    type V = AllowlistErrorView;

    open spec fn view(&self) -> AllowlistErrorView {
        match self {
            AllowlistError::Key(fault) => AllowlistErrorView::Key(*fault),
            AllowlistError::Agent(error) => AllowlistErrorView::Agent(error@),
            AllowlistError::Empty => AllowlistErrorView::Empty,
        }
    }
}

/// Whether a line, without the white space around it, is to hold a key.
pub open spec fn significant(line: Seq<char>) -> bool {
    line.len() > 0 && line[0] != '#'
}

/// The fingerprint of the key that a line gave, if the key may be used.
pub open spec fn vetted(key: Result<Seq<u8>, KeyFault>) -> Result<Seq<u8>, AllowlistErrorView> {
    match key {
        Err(fault) => Err(AllowlistErrorView::Key(fault)),
        Ok(blob) => match crate::agent::supported(blob) {
            Err(error) => Err(AllowlistErrorView::Agent(error)),
            Ok(()) => Ok(crate::crypto::sha256(blob)),
        },
    }
}

/// What the lines among the first `n` that are to hold a key hold.
pub open spec fn keys_read(lines: Seq<Seq<char>>, n: int) -> Seq<Result<Seq<u8>, KeyFault>>
    decreases n,
{
    if n <= 0 {
        seq![]
    } else {
        let line = stripped(lines[n - 1]);
        if significant(line) {
            keys_read(lines, n - 1).push(key_read(line))
        } else {
            keys_read(lines, n - 1)
        }
    }
}

/// The fingerprints of the first `n` keys, or what is wrong with the first that may
/// not be used.
pub open spec fn gathered(keys: Seq<Result<Seq<u8>, KeyFault>>, n: int) -> Result<
    Seq<Seq<u8>>,
    AllowlistErrorView,
>
    decreases n,
{
    if n <= 0 {
        Ok(seq![])
    } else {
        match gathered(keys, n - 1) {
            Err(error) => Err(error),
            Ok(before) => match vetted(keys[n - 1]) {
                Err(error) => Err(error),
                Ok(digest) => Ok(before.push(digest)),
            },
        }
    }
}

/// The fingerprints of some keys, of which there has to be one.
pub open spec fn all_vetted(keys: Seq<Result<Seq<u8>, KeyFault>>) -> Result<
    Seq<Seq<u8>>,
    AllowlistErrorView,
> {
    match gathered(keys, keys.len() as int) {
        Err(error) => Err(error),
        Ok(digests) => if digests.len() == 0 {
            Err(AllowlistErrorView::Empty)
        } else {
            Ok(digests)
        },
    }
}

/// The fingerprints of the keys that a text lists.
pub open spec fn allowed(text: Seq<char>) -> Result<Seq<Seq<u8>>, AllowlistErrorView> {
    all_vetted(keys_read(lines_of(text), lines_of(text).len() as int))
}

pub open spec fn key_views(keys: Seq<Result<Vec<u8>, KeyFault>>) -> Seq<
    Result<Seq<u8>, KeyFault>,
> {
    Seq::new(keys.len(), |i: int| key_view(keys[i]))
}

pub open spec fn digests_view(digests: Seq<[u8; 32]>) -> Seq<Seq<u8>> {
    Seq::new(digests.len(), |i: int| digests[i]@)
}

proof fn trimmed_start_is(text: Seq<char>, a: int)
    requires
        0 <= a <= text.len(),
        forall|i: int| 0 <= i < a ==> crate::text::white_space(#[trigger] text[i]),
        a < text.len() ==> !crate::text::white_space(text[a]),
    ensures
        trimmed_start(text) == text.skip(a),
    decreases a,
{
    if a > 0 {
        let rest = text.drop_first();
        assert forall|i: int| 0 <= i < a - 1 implies crate::text::white_space(
            #[trigger] rest[i],
        ) by {
            assert(rest[i] == text[i + 1]);
        }
        trimmed_start_is(rest, a - 1);
        assert(rest.skip(a - 1) =~= text.skip(a));
    } else {
        assert(text.skip(0) =~= text);
    }
}

/// A text without the white space at both its ends.
fn strip(text: &str) -> (rest: &str)
    ensures
        rest@ == stripped(text@),
{
    let rest: &str = str_trim(text);
    proof {
        let (a, b) = choose|a: int, b: int|
            0 <= a <= b <= text@.len() && rest@ == #[trigger] text@.subrange(a, b) && (forall|i: int|
                0 <= i < a || b <= i < text@.len() ==> crate::text::white_space(
                    #[trigger] text@[i],
                ));
        let head = text@.take(b);
        if rest@.len() > 0 {
            assert(head.last() == rest@.last());
            crate::text::trimmed_is(text@, head);
            assert(head[a] == rest@[0]);
            trimmed_start_is(head, a);
            assert(head.skip(a) =~= rest@);
        } else {
            assert forall|i: int| 0 <= i < text@.len() implies crate::text::white_space(
                #[trigger] text@[i],
            ) by {}
            crate::text::trimmed_is(text@, seq![]);
            assert(rest@ =~= seq![]);
        }
    }
    rest
}

/// The fingerprint of the key that a line gave, if the key may be used.
pub fn vet(key: Result<Vec<u8>, KeyFault>) -> (digest: Result<[u8; 32], AllowlistError>)
    ensures
        match digest {
            Ok(bytes) => vetted(key_view(key)) == Ok::<Seq<u8>, AllowlistErrorView>(bytes@),
            Err(error) => vetted(key_view(key)) == Err::<Seq<u8>, AllowlistErrorView>(error@),
        },
{
    match key {
        Err(fault) => Err(AllowlistError::Key(fault)),
        Ok(blob) => match ensure_supported(blob.as_slice()) {
            Err(error) => Err(AllowlistError::Agent(error)),
            Ok(()) => Ok(fingerprint(blob.as_slice())),
        },
    }
}

/// The lines of a text.
fn split_lines(text: &str) -> (lines: Vec<String>)
    ensures
        lines@.len() == lines_of(text@).len(),
        forall|i: int| 0 <= i < lines@.len() ==> (#[trigger] lines@[i])@ == lines_of(text@)[i],
{
    let mut lines: Vec<String> = Vec::new();
    let mut line: String = String::new();
    let mut carried: bool = false;
    for c in it: text.chars()
        invariant
            it.seq() == text@,
            lines@.len() == ended_lines(text@.take(it.index() as int)).len(),
            forall|i: int|
                0 <= i < lines@.len() ==> (#[trigger] lines@[i])@ == ended_lines(
                    text@.take(it.index() as int),
                )[i],
            open_line(text@.take(it.index() as int)) == (if carried {
                line@.push('\r')
            } else {
                line@
            }),
            !carried ==> (line@.len() == 0 || line@.last() != '\r'),
    {
        let ghost before = text@.take(it.index() as int);
        let ghost after = text@.take(it.index() + 1);
        proof {
            assert(after.drop_last() =~= before);
            assert(after.last() == c);
        }
        if c == '\n' {
            proof {
                if carried {
                    assert(line@.push('\r').drop_last() =~= line@);
                }
            }
            let mut ended: String = String::new();
            std::mem::swap(&mut ended, &mut line);
            lines.push(ended);
            carried = false;
        } else {
            if carried {
                line.push('\r');
            }
            carried = c == '\r';
            if c != '\r' {
                line.push(c);
            }
        }
    }
    assert(text@.take(text@.len() as int) =~= text@);
    if carried {
        line.push('\r');
    }
    if !line.as_str().is_empty() {
        lines.push(line);
    }
    lines
}

/// The fingerprints of some keys, if all of them may be used and there is one.
pub fn gather(keys: Vec<Result<Vec<u8>, KeyFault>>) -> (digests: Result<
    Vec<[u8; 32]>,
    AllowlistError,
>)
    ensures
        match digests {
            Ok(found) => all_vetted(key_views(keys@)) == Ok::<Seq<Seq<u8>>, AllowlistErrorView>(
                digests_view(found@),
            ) && found@.len() > 0,
            Err(error) => all_vetted(key_views(keys@)) == Err::<
                Seq<Seq<u8>>,
                AllowlistErrorView,
            >(error@),
        },
{
    let ghost views = key_views(keys@);
    let mut digests: Vec<[u8; 32]> = Vec::new();
    assert(digests_view(digests@) =~= seq![]);
    for key in it: keys.into_iter()
        invariant
            it.seq() == keys@,
            views == key_views(keys@),
            gathered(views, it.index() as int) == Ok::<Seq<Seq<u8>>, AllowlistErrorView>(
                digests_view(digests@),
            ),
    {
        let ghost at = it.index() as int;
        let ghost before = digests_view(digests@);
        assert(views[at] == key_view(key));
        match vet(key) {
            Err(error) => {
                proof {
                    fault_stays(views, at + 1, views.len() as int);
                }
                return Err(error);
            },
            Ok(digest) => {
                digests.push(digest);
                assert(digests_view(digests@) =~= before.push(digest@));
            },
        }
    }
    if digests.len() == 0 {
        Err(AllowlistError::Empty)
    } else {
        Ok(digests)
    }
}

/// The fingerprints of the keys that a text lists, one on a line. Empty lines and
/// lines that begin with `#` are passed over; the first line that holds no key of
/// the right kind is an error, and so is a text without keys.
pub fn parse(text: &str) -> (digests: Result<Vec<[u8; 32]>, AllowlistError>)
    ensures
        match digests {
            Ok(found) => allowed(text@) == Ok::<Seq<Seq<u8>>, AllowlistErrorView>(
                digests_view(found@),
            ) && found@.len() > 0,
            Err(error) => allowed(text@) == Err::<Seq<Seq<u8>>, AllowlistErrorView>(error@),
        },
{
    let lines: Vec<String> = split_lines(text);
    let ghost views = lines_of(text@);
    let mut keys: Vec<Result<Vec<u8>, KeyFault>> = Vec::new();
    let mut i: usize = 0;
    assert(key_views(keys@) =~= seq![]);
    while i < lines.len()
        invariant
            i <= lines.len(),
            views == lines_of(text@),
            lines@.len() == views.len(),
            forall|k: int| 0 <= k < lines@.len() ==> (#[trigger] lines@[k])@ == views[k],
            key_views(keys@) == keys_read(views, i as int),
        decreases lines.len() - i,
    {
        let line: &str = strip(lines[i].as_str());
        let ghost before = key_views(keys@);
        if !line.is_empty() && line.get_char(0) != '#' {
            let key: Result<Vec<u8>, KeyFault> = read_key(line);
            let ghost read = key_view(key);
            keys.push(key);
            assert(key_views(keys@) =~= before.push(read));
        }
        i = i + 1;
    }
    gather(keys)
}

/// Once a key may not be used, the keys after it change nothing.
proof fn fault_stays(keys: Seq<Result<Seq<u8>, KeyFault>>, n: int, m: int)
    requires
        gathered(keys, n) is Err,
        n <= m,
    ensures
        gathered(keys, m) == gathered(keys, n),
    decreases m - n,
{
    if n < m {
        fault_stays(keys, n, m - 1);
    }
}

/// Whether no line ends within a text.
pub open spec fn unfed(text: Seq<char>) -> bool {
    forall|i: int| 0 <= i < text.len() ==> #[trigger] text[i] != '\n'
}

proof fn unfed_is_open(line: Seq<char>)
    requires
        unfed(line),
    ensures
        open_line(line) == line,
        ended_lines(line) == Seq::<Seq<char>>::empty(),
    decreases line.len(),
{
    if line.len() > 0 {
        assert(line[line.len() - 1] != '\n');
        assert forall|i: int| 0 <= i < line.drop_last().len() implies #[trigger] line.drop_last()[i]
            != '\n' by {
            assert(line.drop_last()[i] == line[i]);
        }
        unfed_is_open(line.drop_last());
        assert(line.drop_last().push(line.last()) =~= line);
    } else {
        assert(line =~= seq![]);
    }
}

proof fn lines_join(line: Seq<char>, rest: Seq<char>)
    requires
        unfed(line),
    ensures
        ended_lines(line.push('\n') + rest) == seq![uncarried(line)] + ended_lines(rest),
        open_line(line.push('\n') + rest) == open_line(rest),
    decreases rest.len(),
{
    let text = line.push('\n') + rest;
    if rest.len() == 0 {
        assert(text =~= line.push('\n'));
        assert(text.drop_last() =~= line);
        unfed_is_open(line);
        assert(ended_lines(text) =~= seq![uncarried(line)] + ended_lines(rest));
    } else {
        lines_join(line, rest.drop_last());
        assert(text.drop_last() =~= line.push('\n') + rest.drop_last());
        assert(text.last() == rest.last());
        assert(ended_lines(text) =~= seq![uncarried(line)] + ended_lines(rest));
    }
}

/// The lines of a text are what line feeds part: a first line and the line feed behind
/// it, without the carriage return that may stand between, come before the lines of
/// what follows. What comes behind the last line feed is a line if it is not empty.
pub proof fn lines_are_parted_by_feeds(line: Seq<char>, rest: Seq<char>)
    requires
        unfed(line),
    ensures
        line.len() == 0 || line.last() != '\r' ==> lines_of(line.push('\n') + rest) == seq![line]
            + lines_of(rest),
        lines_of(line.push('\r').push('\n') + rest) == seq![line] + lines_of(rest),
        line.len() > 0 ==> lines_of(line) == seq![line],
        line.len() == 0 ==> lines_of(line) == Seq::<Seq<char>>::empty(),
{
    lines_join(line, rest);
    let carried = line.push('\r');
    assert forall|i: int| 0 <= i < carried.len() implies #[trigger] carried[i] != '\n' by {
        if i < line.len() {
            assert(carried[i] == line[i]);
        }
    }
    lines_join(carried, rest);
    assert(carried.drop_last() =~= line);
    unfed_is_open(line);
    let after = lines_of(rest);
    assert(seq![line] + ended_lines(rest).push(open_line(rest)) =~= (seq![line] + ended_lines(
        rest,
    )).push(open_line(rest)));
    if line.len() > 0 {
        assert(Seq::<Seq<char>>::empty().push(line) =~= seq![line]);
    }
}

proof fn trimmed_start_keeps(text: Seq<char>) -> (a: int)
    ensures
        0 <= a <= text.len(),
        trimmed_start(text) == text.skip(a),
        forall|i: int| 0 <= i < a ==> crate::text::white_space(#[trigger] text[i]),
        a < text.len() ==> !crate::text::white_space(text[a]),
    decreases text.len(),
{
    if text.len() > 0 && crate::text::white_space(text[0]) {
        let rest = text.drop_first();
        let a: int = trimmed_start_keeps(rest);
        assert(rest.skip(a) =~= text.skip(a + 1));
        assert forall|i: int| 0 <= i < a + 1 implies crate::text::white_space(
            #[trigger] text[i],
        ) by {
            if i > 0 {
                assert(text[i] == rest[i - 1]);
            }
        }
        if a < rest.len() {
            assert(rest[a] == text[a + 1]);
        }
        a + 1
    } else {
        assert(text.skip(0) =~= text);
        0
    }
}

/// A line is stripped of the white space at both its ends, and of nothing else.
pub proof fn stripping_takes_off_white_space(text: Seq<char>)
    ensures
        bared(text, stripped(text)),
{
    crate::text::trimmed_keeps(text);
    let head = crate::text::trimmed(text);
    let a: int = trimmed_start_keeps(head);
    let b: int = head.len() as int;
    assert(stripped(text) =~= text.subrange(a, b));
    assert forall|i: int| 0 <= i < a || b <= i < text.len() implies crate::text::white_space(
        #[trigger] text[i],
    ) by {
        if i < a {
            assert(head[i] == text[i]);
        } else {
            trimmed_off(text, i);
        }
    }
    if stripped(text).len() > 0 {
        assert(stripped(text).last() == head.last());
        assert(stripped(text)[0] == head[a]);
    }
}

proof fn trimmed_off(text: Seq<char>, i: int)
    requires
        crate::text::trimmed(text).len() <= i < text.len(),
    ensures
        crate::text::white_space(text[i]),
    decreases text.len(),
{
    if text.len() > 0 && crate::text::white_space(text.last()) && i < text.len() - 1 {
        trimmed_off(text.drop_last(), i);
    }
}

/// Lines without anything but white space and lines that begin with `#` are passed
/// over; every other line is read as a key, in order.
pub proof fn every_other_line_is_a_key(lines: Seq<Seq<char>>, n: int)
    requires
        0 < n <= lines.len(),
    ensures
        ({
            let line = stripped(lines[n - 1]);
            keys_read(lines, n) == if line.len() == 0 || line[0] == '#' {
                keys_read(lines, n - 1)
            } else {
                keys_read(lines, n - 1).push(key_read(line))
            }
        }),
        keys_read(lines, 0) == Seq::<Result<Seq<u8>, KeyFault>>::empty(),
{
}

proof fn gathering_is_whole_or_nothing(keys: Seq<Result<Seq<u8>, KeyFault>>, n: int)
    requires
        0 <= n <= keys.len(),
    ensures
        match gathered(keys, n) {
            Ok(digests) => {
                &&& digests.len() == n
                &&& forall|i: int|
                    0 <= i < n ==> #[trigger] vetted(keys[i]) == Ok::<
                        Seq<u8>,
                        AllowlistErrorView,
                    >(digests[i])
            },
            Err(error) => exists|i: int|
                {
                    &&& 0 <= i < n
                    &&& #[trigger] vetted(keys[i]) == Err::<Seq<u8>, AllowlistErrorView>(error)
                    &&& forall|k: int| 0 <= k < i ==> (#[trigger] vetted(keys[k])) is Ok
                },
        },
    decreases n,
{
    if n > 0 {
        gathering_is_whole_or_nothing(keys, n - 1);
        match gathered(keys, n - 1) {
            Ok(before) => {
                match vetted(keys[n - 1]) {
                    Ok(digest) => {
                        let digests = before.push(digest);
                        assert forall|i: int| 0 <= i < n implies #[trigger] vetted(keys[i]) == Ok::<
                            Seq<u8>,
                            AllowlistErrorView,
                        >(digests[i]) by {
                            if i < n - 1 {
                                assert(vetted(keys[i]) == Ok::<Seq<u8>, AllowlistErrorView>(
                                    before[i],
                                ));
                            }
                        }
                    },
                    Err(error) => {
                        assert forall|k: int| 0 <= k < n - 1 implies (#[trigger] vetted(
                            keys[k],
                        )) is Ok by {
                            assert(vetted(keys[k]) == Ok::<Seq<u8>, AllowlistErrorView>(before[k]));
                        }
                    },
                }
            },
            Err(error) => {},
        }
    }
}

/// A list is accepted only if each of its keys may be used and there is one: it gives
/// the fingerprint of each, in order. Otherwise it is refused for the first key that
/// may not be used, or as empty.
pub proof fn list_is_whole_or_nothing(keys: Seq<Result<Seq<u8>, KeyFault>>)
    ensures
        match all_vetted(keys) {
            Ok(digests) => {
                &&& digests.len() == keys.len() > 0
                &&& forall|i: int|
                    0 <= i < keys.len() ==> #[trigger] vetted(keys[i]) == Ok::<
                        Seq<u8>,
                        AllowlistErrorView,
                    >(digests[i])
            },
            Err(error) => {
                ||| keys.len() == 0 && error == AllowlistErrorView::Empty
                ||| exists|i: int|
                    {
                        &&& 0 <= i < keys.len()
                        &&& #[trigger] vetted(keys[i]) == Err::<Seq<u8>, AllowlistErrorView>(error)
                        &&& forall|k: int| 0 <= k < i ==> (#[trigger] vetted(keys[k])) is Ok
                    }
            },
        },
{
    gathering_is_whole_or_nothing(keys, keys.len() as int);
}

/// A key may be used if it names the algorithm ssh-ed25519; it is then known by its
/// SHA-256 digest.
pub proof fn keys_are_known_by_their_digest(name: Seq<char>, rest: Seq<u8>)
    requires
        vstd::utf8::encode_utf8(name).len() < 4294967296,
    ensures
        ({
            let blob = crate::agent::wire(vstd::utf8::encode_utf8(name)) + rest;
            vetted(Ok(blob)) == if vstd::utf8::encode_utf8(name) == crate::agent::ed25519_name() {
                Ok::<Seq<u8>, AllowlistErrorView>(crate::crypto::sha256(blob))
            } else {
                Err::<Seq<u8>, AllowlistErrorView>(
                    AllowlistErrorView::Agent(crate::agent::AgentErrorView::Unsupported(name)),
                )
            }
        }),
        forall|fault: KeyFault|
            #[trigger] vetted(Err(fault)) == Err::<Seq<u8>, AllowlistErrorView>(
                AllowlistErrorView::Key(fault),
            ),
{
    crate::agent::keys_are_supported_by_their_name(name, rest);
}

} // verus!
