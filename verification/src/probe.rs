//! Reading what the remote commands print: `stat -c '%s %Y'`, `sha256sum`
//! and `find -type f`.

use crate::hex::{hex_decoded, hex_decoding_panics, hex_to_bytes, HexError};
use crate::remote::{
    leading_other, lemma_leading_other, lemma_leading_same, remote_relative, remote_relative_path,
};
use crate::hex::{lemma_hex_roundtrip, lower_hex};
use crate::size::{decimal, digit_char};
use crate::text::{
    chars_of, first_word, is_white_space, leading_white, leading_word, lemma_leading_white,
    lemma_leading_word, lemma_trailing_white, next_word, string_of, trim, trimmed,
};
use vstd::prelude::*;

verus! {

/// Why the output of `stat` could not be read.
#[derive(Clone, Copy, Debug, PartialEq, Eq, Structural)]
pub enum StatError {
    /// The size is not a decimal number that fits in 64 bits.
    InvalidSize,
    /// The modification time is not a decimal number that fits in 64 bits.
    InvalidModified,
}

/// `c` is an ASCII decimal digit.
pub open spec fn is_digit(c: char) -> bool {
    48 <= (c as u32) <= 57
}

/// The value of a sequence of decimal digits.
pub open spec fn digits_value(d: Seq<char>) -> nat
    decreases d.len(),
{
    if d.len() == 0 {
        0
    } else {
        digits_value(d.drop_last()) * 10 + ((d.last() as u32) - 48) as nat
    }
}

/// Every character of `d` is an ASCII digit.
pub open spec fn all_digits(d: Seq<char>) -> bool {
    forall|i: int| 0 <= i < d.len() ==> is_digit(#[trigger] d[i])
}

/// `t` without a leading `+` sign, if the sign is followed by anything.
pub open spec fn unsigned_part(t: Seq<char>) -> Seq<char> {
    if t.len() > 1 && t[0] == '+' {
        t.drop_first()
    } else {
        t
    }
}

/// What `str::parse::<u64>` gives for `t`: an optional `+` sign, then at
/// least one ASCII digit, and a value that fits in 64 bits.
pub open spec fn parsed_u64(t: Seq<char>) -> Option<u64> {
    let d = unsigned_part(t);
    if d.len() == 0 || !all_digits(d) {
        None
    } else if digits_value(d) > u64::MAX {
        None
    } else {
        Some(digits_value(d) as u64)
    }
}

proof fn lemma_digits_value_grows(d: Seq<char>, i: int)
    requires
        0 <= i <= d.len(),
        forall|k: int| 0 <= k < d.len() ==> is_digit(#[trigger] d[k]),
    ensures
        digits_value(d.take(i)) <= digits_value(d),
    decreases d.len() - i,
{
    if i < d.len() {
        lemma_digits_value_grows(d, i + 1);
        assert(d.take(i + 1).drop_last() =~= d.take(i));
    } else {
        assert(d.take(i) =~= d);
    }
}

/// Parses a decimal number in `s[start..end]` as `str::parse::<u64>` does.
pub fn parse_u64(s: &[char], start: usize, end: usize) -> (v: Option<u64>)
    requires
        start <= end <= s@.len(),
    ensures
        v == parsed_u64(s@.subrange(start as int, end as int)),
{
    let ghost t = s@.subrange(start as int, end as int);
    let from = if end - start > 1 && s[start] == '+' {
        start + 1
    } else {
        start
    };
    let ghost d = s@.subrange(from as int, end as int);
    proof {
        if end - start > 1 && s@[start as int] == '+' {
            assert(d =~= t.drop_first());
        } else {
            assert(d =~= t);
        }
    }
    if from == end {
        return None;
    }
    let mut value: u64 = 0;
    let mut i = from;
    while i < end
        invariant
            from <= i <= end <= s@.len(),
            from < end,
            d == s@.subrange(from as int, end as int),
            t == s@.subrange(start as int, end as int),
            d == unsigned_part(t),
            forall|k: int| from <= k < i ==> is_digit(#[trigger] s@[k]),
            value == digits_value(s@.subrange(from as int, i as int)),
        decreases end - i,
    {
        let c = s[i];
        let u = c as u32;
        if u < 48 || u > 57 {
            proof {
                assert(d[i - from] == s@[i as int]);
                assert(!is_digit(d[i - from]));
                assert(!all_digits(d));
                assert(parsed_u64(t) is None);
            }
            return None;
        }
        let digit = (u - 48) as u64;
        proof {
            assert(s@.subrange(from as int, i + 1).drop_last() =~= s@.subrange(from as int, i as int));
        }
        if value > (u64::MAX - digit) / 10 {
            proof {
                if all_digits(d) {
                    assert(d.take(i + 1 - from) =~= s@.subrange(from as int, i + 1));
                    assert(digits_value(d.take(i + 1 - from)) == value * 10 + digit);
                    lemma_digits_value_grows(d, i + 1 - from);
                    assert(value * 10 + digit > u64::MAX) by (nonlinear_arith)
                        requires
                            value > (u64::MAX - digit) / 10,
                            digit <= 9,
                    ;
                    assert(digits_value(d) > u64::MAX);
                }
                assert(parsed_u64(t) is None);
            }
            return None;
        }
        value = value * 10 + digit;
        i = i + 1;
    }
    proof {
        assert(s@.subrange(from as int, end as int) =~= d);
    }
    Some(value)
}

/// What `remote_metadata_match` concludes from the output of
/// `stat -c '%s %Y'`: the remote file is up to date when its size (the first
/// word) equals the local size and its modification time (the second word)
/// is not older than the local one. Missing words mean it is not; a size
/// that is not a number is an error, and so is a modification time that is
/// not a number when the sizes agree. (Trimming the output first, as the
/// command's reader does, changes none of its words.)
pub open spec fn stat_verdict(source_len: u64, source_modified_secs: u64, output: Seq<char>) -> Result<
    bool,
    StatError,
> {
    match first_word(output) {
        None => Ok(false),
        Some((size_word, rest)) => match first_word(rest) {
            None => Ok(false),
            Some((modified_word, _)) => match parsed_u64(size_word) {
                None => Err(StatError::InvalidSize),
                Some(size) => if size != source_len {
                    Ok(false)
                } else {
                    match parsed_u64(modified_word) {
                        None => Err(StatError::InvalidModified),
                        Some(modified) => Ok(source_modified_secs <= modified),
                    }
                },
            },
        },
    }
}

/// Whether a remote file matches a local one by size and modification time,
/// judged from what `stat -c '%s %Y'` printed for the remote file.
pub fn remote_metadata_match(source_len: u64, source_modified_secs: u64, stat_output: &str) -> (verdict:
    Result<bool, StatError>)
    ensures
        verdict == stat_verdict(source_len, source_modified_secs, stat_output@),
{
    let s = chars_of(stat_output);
    assert(s@.skip(0) =~= s@);
    let (size_start, size_end) = match next_word(s.as_slice(), 0) {
        None => return Ok(false),
        Some(bounds) => bounds,
    };
    let (modified_start, modified_end) = match next_word(s.as_slice(), size_end) {
        None => return Ok(false),
        Some(bounds) => bounds,
    };
    let size = match parse_u64(s.as_slice(), size_start, size_end) {
        None => return Err(StatError::InvalidSize),
        Some(v) => v,
    };
    if size != source_len {
        return Ok(false);
    }
    let modified = match parse_u64(s.as_slice(), modified_start, modified_end) {
        None => return Err(StatError::InvalidModified),
        Some(v) => v,
    };
    Ok(source_modified_secs <= modified)
}

/// What `remote_checksums_match` concludes from the output of `sha256sum`:
/// its first word, decoded from hexadecimal, compared with the local
/// digest; no word means no match.
pub open spec fn checksum_verdict(source_hash: Seq<u8>, output: Seq<char>) -> Result<bool, HexError> {
    match first_word(output) {
        None => Ok(false),
        Some((word, _)) => match hex_decoded(word) {
            Ok(remote_hash) => Ok(remote_hash == source_hash),
            Err(e) => Err(e),
        },
    }
}

/// The first word of `sha256sum`'s output would make `hex_to_bytes` panic.
pub open spec fn checksum_output_panics(output: Seq<char>) -> bool {
    first_word(output) matches Some((word, _)) && hex_decoding_panics(word)
}

/// Whether a remote file has the local file's SHA-256 digest, judged from
/// what `sha256sum` printed for the remote file.
pub fn remote_checksums_match(source_hash: &[u8], sha256sum_output: &str) -> (verdict: Result<
    bool,
    HexError,
>)
    requires
        !checksum_output_panics(sha256sum_output@),
    ensures
        verdict == checksum_verdict(source_hash@, sha256sum_output@),
{
    let s = chars_of(sha256sum_output);
    assert(s@.skip(0) =~= s@);
    let (start, end) = match next_word(s.as_slice(), 0) {
        None => return Ok(false),
        Some(bounds) => bounds,
    };
    let word = string_of(&s.as_slice()[start..end]);
    match hex_to_bytes(word.as_str()) {
        Ok(remote_hash) => Ok(crate::digest::bytes_equal(remote_hash.as_slice(), source_hash)),
        Err(e) => Err(e),
    }
}

/// Whether the first word of `sha256sum`'s output would make decoding panic.
pub fn checksum_output_would_panic(sha256sum_output: &str) -> (panics: bool)
    ensures
        panics == checksum_output_panics(sha256sum_output@),
{
    let s = chars_of(sha256sum_output);
    assert(s@.skip(0) =~= s@);
    match next_word(s.as_slice(), 0) {
        None => false,
        Some((start, end)) => {
            let word = string_of(&s.as_slice()[start..end]);
            crate::hex::hex_decoding_would_panic(word.as_str())
        },
    }
}

proof fn lemma_leading_other_bound(s: Seq<char>, c: char)
    ensures
        leading_other(s, c) <= s.len(),
        leading_other(s, c) < s.len() ==> s[leading_other(s, c) as int] == c,
    decreases s.len(),
{
    if s.len() > 0 && s[0] != c {
        lemma_leading_other_bound(s.drop_first(), c);
        let n = leading_other(s.drop_first(), c);
        if n < s.len() - 1 {
            assert(s.drop_first()[n as int] == s[(n + 1) as int]);
        }
    }
}

/// `line` without one trailing carriage return.
pub open spec fn without_cr(line: Seq<char>) -> Seq<char> {
    if line.len() > 0 && line.last() == '\r' {
        line.drop_last()
    } else {
        line
    }
}

/// The lines of `s` as `str::lines` gives them: split at each `\n`, a `\r`
/// before the `\n` removed, no empty line after a final `\n`.
pub open spec fn lines_of(s: Seq<char>) -> Seq<Seq<char>>
    decreases s.len(),
{
    if s.len() == 0 {
        Seq::empty()
    } else {
        let n = leading_other(s, '\n') as int;
        if n >= s.len() {
            seq![s]
        } else {
            seq![without_cr(s.take(n))] + lines_of(s.skip(n + 1))
        }
    }
}

/// A file listed by `find` on the remote side, and its path relative to the
/// remote base directory.
#[derive(Debug)]
pub struct RemoteFile {
    pub remote_path: String,
    pub relative: String,
}

/// What `delete_extra_remote_files` makes of one line of `find`'s output:
/// the trimmed line and its path relative to `base`, if the line is not
/// blank and starts with `base`.
pub open spec fn listed_file(base: Seq<char>, line: Seq<char>) -> Option<(Seq<char>, Seq<char>)> {
    let t = trimmed(line);
    if t.len() == 0 {
        None
    } else {
        match remote_relative(base, t) {
            Some(r) => Some((t, r)),
            None => None,
        }
    }
}

/// The listed files of the given lines, in order.
pub open spec fn listed_files(base: Seq<char>, lines: Seq<Seq<char>>) -> Seq<(Seq<char>, Seq<char>)>
    decreases lines.len(),
{
    if lines.len() == 0 {
        Seq::empty()
    } else {
        (match listed_file(base, lines[0]) {
            Some(f) => seq![f],
            None => Seq::empty(),
        }) + listed_files(base, lines.drop_first())
    }
}

/// Each listed file as its remote path and its relative path.
pub open spec fn remote_files_view(files: Seq<RemoteFile>) -> Seq<(Seq<char>, Seq<char>)> {
    files.map_values(|f: RemoteFile| (f.remote_path@, f.relative@))
}

/// The remote files that `find <base> -type f` printed, each with its path
/// relative to `base`; blank lines and paths outside `base` are left out.
pub fn remote_listed_files(base: &str, find_output: &str) -> (files: Vec<RemoteFile>)
    ensures
        remote_files_view(files@) == listed_files(base@, lines_of(find_output@)),
        forall|r: Seq<char>|
            #[trigger] plain_find_line(base@, r) && (find_output@ == base@ + seq!['/'] + r
                || find_output@ == base@ + seq!['/'] + r + seq!['\n']) ==> files@.len() == 1
                && files@[0].remote_path@ == base@ + seq!['/'] + r && files@[0].relative@ == r,
{
    let s = chars_of(find_output);
    let mut files: Vec<RemoteFile> = Vec::new();
    let mut pos: usize = 0;
    assert(s@.skip(0) =~= s@);
    while pos < s.len()
        invariant
            pos <= s@.len(),
            s@ == find_output@,
            listed_files(base@, lines_of(s@)) == remote_files_view(files@) + listed_files(
                base@,
                lines_of(s@.skip(pos as int)),
            ),
        decreases s@.len() - pos,
    {
        let ghost rest = s@.skip(pos as int);
        let mut end = pos;
        while end < s.len() && s[end] != '\n'
            invariant
                pos <= end <= s@.len(),
                forall|i: int| pos <= i < end ==> #[trigger] s@[i] != '\n',
            decreases s@.len() - end,
        {
            end = end + 1;
        }
        proof {
            assert forall|i: int| 0 <= i < end - pos implies #[trigger] rest[i] != '\n' by {
                assert(rest[i] == s@[pos + i]);
            }
            if end < s@.len() {
                assert(rest[end - pos] == s@[end as int]);
            }
            lemma_leading_other(rest, '\n', end - pos);
        }
        let mut line_end = end;
        if end < s.len() && end > pos && s[end - 1] == '\r' {
            line_end = end - 1;
        }
        let t = trim(&s.as_slice()[pos..line_end]);
        let ghost line = if end < s@.len() {
            without_cr(rest.take(end - pos))
        } else {
            rest
        };
        proof {
            if end < s@.len() {
                assert(rest.take(end - pos) =~= s@.subrange(pos as int, end as int));
                if end > pos && s@[end - 1] == '\r' {
                    assert(line =~= s@.subrange(pos as int, line_end as int));
                } else {
                    assert(line =~= s@.subrange(pos as int, line_end as int));
                }
            } else {
                assert(line =~= s@.subrange(pos as int, line_end as int));
            }
            assert(lines_of(rest) == seq![line] + (if end < s@.len() {
                lines_of(rest.skip(end - pos + 1))
            } else {
                Seq::empty()
            }));
        }
        let ghost before = files@;
        if t.len() > 0 {
            let path = string_of(t.as_slice());
            match remote_relative_path(base, path.as_str()) {
                Some(relative) => {
                    files.push(RemoteFile { remote_path: path, relative });
                },
                None => {},
            }
        }
        proof {
            let ls = lines_of(rest);
            assert(ls[0] == line);
            assert(ls.drop_first() =~= (if end < s@.len() {
                lines_of(rest.skip(end - pos + 1))
            } else {
                Seq::<Seq<char>>::empty()
            }));
            assert(remote_files_view(files@) =~= remote_files_view(before) + (match listed_file(
                base@,
                line,
            ) {
                Some(f) => seq![f],
                None => Seq::empty(),
            }));
        }
        if end < s.len() {
            proof {
                assert(rest.skip(end - pos + 1) =~= s@.skip(end + 1));
            }
            pos = end + 1;
        } else {
            pos = s.len();
            proof {
                assert(s@.skip(pos as int) =~= Seq::<char>::empty());
            }
        }
    }
    proof {
        assert(remote_files_view(files@) == listed_files(base@, lines_of(find_output@)));
        assert forall|r: Seq<char>|
            #[trigger] plain_find_line(base@, r) && (find_output@ == base@ + seq!['/'] + r
                || find_output@ == base@ + seq!['/'] + r + seq!['\n']) implies files@.len() == 1
                && files@[0].remote_path@ == base@ + seq!['/'] + r && files@[0].relative@ == r by {
            lemma_find_line_listed_whole(base@, r);
            let v = remote_files_view(files@);
            assert(v.len() == 1);
            assert(v[0] == (files@[0].remote_path@, files@[0].relative@));
        }
    }
    files
}

proof fn lemma_decimal_digits(n: nat)
    ensures
        decimal(n).len() > 0,
        all_digits(decimal(n)),
        digits_value(decimal(n)) == n,
    decreases n,
{
    if n >= 10 {
        lemma_decimal_digits(n / 10);
        let d = decimal(n);
        assert(d.drop_last() =~= decimal(n / 10));
        assert(d.last() == digit_char(n % 10));
        assert((digit_char(n % 10) as u32) == n % 10 + 48);
        assert(digits_value(d) == digits_value(decimal(n / 10)) * 10 + n % 10);
        assert((n / 10) * 10 + n % 10 == n);
        assert forall|i: int| 0 <= i < d.len() implies is_digit(#[trigger] d[i]) by {
            if i < d.len() - 1 {
                assert(d[i] == decimal(n / 10)[i]);
            }
        }
    } else {
        assert(decimal(n) =~= seq![digit_char(n)]);
        assert((digit_char(n) as u32) == n + 48);
        assert(decimal(n).drop_last() =~= Seq::<char>::empty());
        assert(digits_value(Seq::<char>::empty()) == 0);
        assert(decimal(n).last() == digit_char(n));
        assert(decimal(n).len() == 1);
        assert(digits_value(decimal(n)) == n);
        assert(decimal(n).drop_last() =~= Seq::<char>::empty());
    }
}

/// A number printed in decimal reads back as that number.
pub proof fn lemma_decimal_reads_back(n: u64)
    ensures
        parsed_u64(decimal(n as nat)) == Some(n),
{
    lemma_decimal_digits(n as nat);
    let d = decimal(n as nat);
    assert(is_digit(d[0]));
    assert(unsigned_part(d) == d);
}

/// The word `w` followed by `rest`, where `w` has no white space and `rest`
/// starts with white space: its first word is `w`.
proof fn lemma_first_word_of(w: Seq<char>, rest: Seq<char>)
    requires
        w.len() > 0,
        forall|i: int| 0 <= i < w.len() ==> !is_white_space(#[trigger] w[i]),
        rest.len() > 0 && is_white_space(rest[0]),
    ensures
        first_word(w + rest) == Some((w, rest)),
{
    let s = w + rest;
    lemma_leading_white(s, 0);
    assert(s.skip(0) =~= s);
    assert forall|i: int| 0 <= i < w.len() implies !is_white_space(#[trigger] s[i]) by {
        assert(s[i] == w[i]);
    }
    assert(s[w.len() as int] == rest[0]);
    lemma_leading_word(s, w.len() as int);
    assert(s.take(w.len() as int) =~= w);
    assert(s.skip(w.len() as int) =~= rest);
}

proof fn lemma_digits_not_white(d: Seq<char>)
    requires
        all_digits(d),
    ensures
        forall|i: int| 0 <= i < d.len() ==> !is_white_space(#[trigger] d[i]),
{
    assert forall|i: int| 0 <= i < d.len() implies !is_white_space(#[trigger] d[i]) by {
        assert(is_digit(d[i]));
    }
}

/// On the line `stat -c '%s %Y'` prints for a file of `size` bytes modified
/// at `modified` seconds, the verdict is that the files match exactly when
/// the sizes are equal and the local file is not newer.
pub proof fn lemma_stat_output_verdict(source_len: u64, source_modified_secs: u64, size: u64, modified: u64)
    ensures
        stat_verdict(
            source_len,
            source_modified_secs,
            decimal(size as nat) + seq![' '] + decimal(modified as nat) + seq!['\n'],
        ) == Ok::<bool, StatError>(size == source_len && source_modified_secs <= modified),
{
    let ds = decimal(size as nat);
    let dm = decimal(modified as nat);
    lemma_decimal_digits(size as nat);
    lemma_decimal_digits(modified as nat);
    lemma_digits_not_white(ds);
    lemma_digits_not_white(dm);
    lemma_decimal_reads_back(size);
    lemma_decimal_reads_back(modified);
    let nl = seq!['\n'];
    let rest = seq![' '] + dm + nl;
    assert(ds + seq![' '] + dm + nl =~= ds + rest);
    assert(rest[0] == ' ');
    lemma_first_word_of(ds, rest);
    let rest2 = rest.skip(leading_white(rest) as int);
    assert(!is_white_space(dm[0]));
    lemma_leading_white(rest, 1);
    assert(rest.skip(1) =~= dm + nl);
    assert(nl[0] == '\n');
    lemma_first_word_of(dm, nl);
    lemma_leading_white(dm + nl, 0);
    assert((dm + nl).skip(0) =~= dm + nl);
}

/// On the line `sha256sum` prints for a file whose digest is `remote_hash`,
/// the verdict is that the files match exactly when the digests are equal.
pub proof fn lemma_sha256sum_output_verdict(source_hash: Seq<u8>, remote_hash: Seq<u8>, name: Seq<char>)
    requires
        remote_hash.len() > 0,
    ensures
        checksum_verdict(source_hash, lower_hex(remote_hash) + seq![' ', ' '] + name)
            == Ok::<bool, HexError>(remote_hash == source_hash),
        !checksum_output_panics(lower_hex(remote_hash) + seq![' ', ' '] + name),
{
    let h = lower_hex(remote_hash);
    let rest = seq![' ', ' '] + name;
    assert(h + seq![' ', ' '] + name =~= h + rest);
    assert forall|i: int| 0 <= i < h.len() implies !is_white_space(#[trigger] h[i]) by {}
    assert(rest[0] == ' ');
    lemma_first_word_of(h, rest);
    lemma_hex_roundtrip(remote_hash);
}

/// `base/r` is a line as `find` prints it: no newline in it, no white space
/// at its ends, and `r` does not start with `/`.
pub open spec fn plain_find_line(base: Seq<char>, r: Seq<char>) -> bool {
    &&& !base.contains('\n')
    &&& !r.contains('\n')
    &&& base.len() == 0 || !is_white_space(base[0])
    &&& r.len() == 0 || (!is_white_space(r.last()) && r[0] != '/')
}

/// Each line of `find`'s output is listed whole: the line `base/r`, with or
/// without its newline, lists exactly the file `base/r` at the relative path
/// `r`, whatever characters `r` holds (spaces included).
pub proof fn lemma_find_line_listed_whole(base: Seq<char>, r: Seq<char>)
    requires
        plain_find_line(base, r),
    ensures
        listed_files(base, lines_of(base + seq!['/'] + r)) == seq![(base + seq!['/'] + r, r)],
        listed_files(base, lines_of(base + seq!['/'] + r + seq!['\n'])) == seq![
            (base + seq!['/'] + r, r),
        ],
{
    let line = base + seq!['/'] + r;
    let bl = base.len() as int;
    assert forall|i: int| 0 <= i < line.len() implies #[trigger] line[i] != '\n' by {
        if i < bl {
            assert(line[i] == base[i]);
            if base[i] == '\n' {
                assert(base.contains('\n'));
            }
        } else if i > bl {
            assert(line[i] == r[i - bl - 1]);
            if r[i - bl - 1] == '\n' {
                assert(r.contains('\n'));
            }
        }
    }
    lemma_leading_other(line, '\n', line.len() as int);
    assert(lines_of(line) == seq![line]);
    let with_nl = line + seq!['\n'];
    assert forall|i: int| 0 <= i < line.len() implies #[trigger] with_nl[i] != '\n' by {
        assert(with_nl[i] == line[i]);
    }
    assert(with_nl[line.len() as int] == '\n');
    lemma_leading_other(with_nl, '\n', line.len() as int);
    assert(with_nl.take(line.len() as int) =~= line);
    assert(with_nl.skip(line.len() as int + 1) =~= Seq::<char>::empty());
    // the line's ends are not white space
    if bl > 0 {
        assert(line[0] == base[0]);
    } else {
        assert(line[0] == '/');
    }
    if r.len() > 0 {
        assert(line.last() == r.last());
    } else {
        assert(line.last() == '/');
    }
    assert(without_cr(line) == line);
    assert(lines_of(Seq::<char>::empty()) == Seq::<Seq<char>>::empty());
    assert(lines_of(with_nl) == seq![without_cr(line)] + lines_of(Seq::<char>::empty()));
    assert(lines_of(with_nl) =~= seq![line]);
    lemma_leading_white(line, 0);
    assert(line.skip(0) =~= line);
    lemma_trailing_white(line, 0);
    assert(line.take(line.len() as int) =~= line);
    assert(trimmed(line) == line);
    // the base is stripped with the one slash after it
    assert(line.subrange(0, bl) =~= base);
    let rest = line.skip(bl);
    assert(rest =~= seq!['/'] + r);
    if r.len() > 0 {
        assert(rest[1] == r[0]);
    }
    lemma_leading_same(rest, '/', 1);
    assert(rest.skip(1) =~= r);
    assert(remote_relative(base, line) == Some(r));
    assert(listed_file(base, line) == Some((line, r)));
    let ls = seq![line];
    assert(ls[0] == line);
    assert(ls.drop_first() =~= Seq::<Seq<char>>::empty());
    assert(listed_files(base, Seq::<Seq<char>>::empty()) == Seq::<(Seq<char>, Seq<char>)>::empty());
    assert(listed_files(base, ls) == seq![(line, r)] + listed_files(base, Seq::<Seq<char>>::empty()));
    assert(listed_files(base, ls) =~= seq![(line, r)]);
}

} // verus!
