//! Tar archives: counting their files and bytes; and the search for the commit that put a
//! cookie in `santa.txt`.
use vstd::prelude::*;
use crate::Status;
use crate::text::{append, chars_of, lines, lines_of, string_of};

verus! {

/// What `tar::Archive::entries` yields for the bytes: the sizes of the entries read, in
/// order, and the text of the error that ended the listing, if one did; or the text of the
/// error `entries` itself reports.
pub uninterp spec fn tar_listing(data: Seq<u8>) -> Result<(Seq<u64>, Option<Seq<char>>), Seq<char>>;

/// `tar::Archive::new` over the bytes and `entries`, walked to its end: each entry's `size`,
/// and the error that ends the walk (the iterator yields nothing after an error). The sizes
/// come in a `Vec<u64>`, which holds at most `isize::MAX` bytes.
#[verifier::external_body]
fn list_entries(data: Vec<u8>) -> (r: Result<(Vec<u64>, Option<String>), String>)
    ensures
        r matches Ok((s, _)) ==> s@.len() < usize::MAX,
        match tar_listing(data@) {
            Ok((v, None)) => r matches Ok((s, None)) && s@ == v,
            Ok((v, Some(m))) => r matches Ok((s, Some(t))) && s@ == v && t@ == m,
            Err(m) => r matches Err(t) && t@ == m,
        },
{
    let mut archive = tar::Archive::new(std::io::Cursor::new(data));
    let entries = match archive.entries() {
        Ok(entries) => entries,
        Err(e) => return Err(e.to_string()),
    };
    let mut sizes = Vec::new();
    for entry in entries {
        match entry {
            Ok(entry) => sizes.push(entry.size()),
            Err(e) => return Ok((sizes, Some(e.to_string()))),
        }
    }
    Ok((sizes, None))
}

/// How many items the listing yields: each entry read, and the error that ends it.
pub open spec fn listed_items(sizes: Seq<u64>, tail: Option<Seq<char>>) -> nat {
    sizes.len() + if tail is Some { 1nat } else { 0nat }
}

/// How many items a listing of the archive yielded (an entry that fails to read counts
/// too); `500` with the error's text when the listing could not start.
pub fn count_listing(listing: Result<(Vec<u64>, Option<String>), String>) -> (r: Result<
    usize,
    (Status, String),
>)
    requires
        listing matches Ok((s, _)) ==> s@.len() < usize::MAX,
    ensures
        match listing {
            Ok((v, None)) => r == Ok::<usize, (Status, String)>(v@.len() as usize),
            Ok((v, Some(_))) => r == Ok::<usize, (Status, String)>((v@.len() + 1) as usize),
            Err(m) => r matches Err((s, t)) && s.code == 500 && t@ == m@,
        },
{
    match listing {
        Ok((sizes, tail)) => {
            let n = sizes.len();
            match tail {
                None => Ok(n),
                Some(_) => Ok(n + 1),
            }
        },
        Err(e) => Err((Status { code: 500 }, e)),
    }
}

/// How many entries the uploaded archive holds (an entry that fails to read counts too);
/// `500` with the error's text when the archive cannot be listed at all.
pub fn archive_files(data: Vec<u8>) -> (r: Result<usize, (Status, String)>)
    ensures
        match tar_listing(data@) {
            Ok((v, tail)) => r == Ok::<usize, (Status, String)>(listed_items(v, tail) as usize),
            Err(m) => r matches Err((s, t)) && s.code == 500 && t@ == m,
        },
{
    count_listing(list_entries(data))
}

/// The sum of the sizes.
pub open spec fn total(sizes: Seq<u64>) -> nat
    decreases sizes.len(),
{
    if sizes.len() == 0 {
        0
    } else {
        (total(sizes.drop_last()) + sizes.last()) as nat
    }
}

proof fn lemma_total_monotone(sizes: Seq<u64>, m: int, n: int)
    requires
        0 <= m <= n <= sizes.len(),
    ensures
        total(sizes.take(m)) <= total(sizes.take(n)),
    decreases n - m,
{
    if m < n {
        lemma_total_monotone(sizes, m, n - 1);
        assert(sizes.take(n).drop_last() =~= sizes.take(n - 1));
    }
}

/// The sum of the sizes, or `None` where it leaves the range of `u64`.
pub fn checked_total(sizes: &Vec<u64>) -> (r: Option<u64>)
    ensures
        total(sizes@) <= u64::MAX ==> r == Some(total(sizes@) as u64),
        total(sizes@) > u64::MAX ==> r is None,
{
    let mut t: u64 = 0;
    let mut i: usize = 0;
    while i < sizes.len()
        invariant
            i <= sizes@.len(),
            t == total(sizes@.take(i as int)),
        decreases sizes.len() - i,
    {
        proof {
            assert(sizes@.take(i + 1).drop_last() =~= sizes@.take(i as int));
        }
        if sizes[i] > u64::MAX - t {
            proof {
                lemma_total_monotone(sizes@, i + 1, sizes@.len() as int);
                assert(sizes@.take(sizes@.len() as int) =~= sizes@);
            }
            return None;
        }
        t = t + sizes[i];
        i = i + 1;
    }
    assert(sizes@.take(i as int) =~= sizes@);
    Some(t)
}

/// The total size of the files a listing of the archive yielded. The sizes are added up in
/// order until the error that ends the listing, if any, which is then answered with `500`
/// and its text, as is a listing that could not start. `None` where the sum leaves the range
/// of `u64` before that.
pub fn size_listing(listing: Result<(Vec<u64>, Option<String>), String>) -> (r: Option<
    Result<u64, (Status, String)>,
>)
    ensures
        match listing {
            Ok((v, tail)) => if total(v@) > u64::MAX {
                r is None
            } else {
                match tail {
                    None => r == Some(Ok::<u64, (Status, String)>(total(v@) as u64)),
                    Some(m) => r matches Some(Err((s, t))) && s.code == 500 && t@ == m@,
                }
            },
            Err(m) => r matches Some(Err((s, t))) && s.code == 500 && t@ == m@,
        },
{
    match listing {
        Err(e) => Some(Err((Status { code: 500 }, e))),
        Ok((sizes, tail)) => match checked_total(&sizes) {
            None => None,
            Some(t) => match tail {
                None => Some(Ok(t)),
                Some(e) => Some(Err((Status { code: 500 }, e))),
            },
        },
    }
}

/// The total size of the files in the uploaded archive, as `size_listing` adds them up.
pub fn archive_files_size(data: Vec<u8>) -> (r: Option<Result<u64, (Status, String)>>)
    ensures
        match tar_listing(data@) {
            Ok((v, tail)) => if total(v) > u64::MAX {
                r is None
            } else {
                match tail {
                    None => r == Some(Ok::<u64, (Status, String)>(total(v) as u64)),
                    Some(m) => r matches Some(Err((s, t))) && s.code == 500 && t@ == m,
                }
            },
            Err(m) => r matches Some(Err((s, t))) && s.code == 500 && t@ == m,
        },
{
    size_listing(list_entries(data))
}

// ---------------------------------------------------------------------------------------------
// Looking for the cookie
/// Index of the first `','` in `s`, or its length.
pub open spec fn comma_at(s: Seq<char>) -> nat
    decreases s.len(),
{
    if s.len() == 0 || s[0] == ',' {
        0
    } else {
        1 + comma_at(s.drop_first())
    }
}

/// A line of the log split at its first comma into author and commit; `None` without a comma.
pub open spec fn split_line(l: Seq<char>) -> Option<(Seq<char>, Seq<char>)> {
    let i = comma_at(l) as int;
    if i >= l.len() {
        None
    } else {
        Some((l.take(i), l.skip(i + 1)))
    }
}

/// Every line of the log holds a comma.
pub open spec fn log_well_formed(log: Seq<char>) -> bool {
    forall|i: int| 0 <= i < lines_of(log).len() ==> #[trigger] split_line(lines_of(log)[i]) is Some
}

proof fn lemma_comma_at(s: Seq<char>, m: int)
    requires
        0 <= m <= s.len(),
        forall|j: int| 0 <= j < m ==> s[j] != ',',
        m == s.len() || s[m] == ',',
    ensures
        comma_at(s) == m,
    decreases m,
{
    if m > 0 {
        lemma_comma_at(s.drop_first(), m - 1);
    }
}

fn split_at_comma(l: &str) -> (r: Option<(String, String)>)
    ensures
        match split_line(l@) {
            None => r is None,
            Some((a, b)) => r matches Some((x, y)) && x@ == a && y@ == b,
        },
{
    let cs = chars_of(l);
    let mut i: usize = 0;
    while i < cs.len() && cs[i] != ','
        invariant
            cs@ == l@,
            i <= cs@.len(),
            forall|j: int| 0 <= j < i ==> cs@[j] != ',',
        decreases cs.len() - i,
    {
        i = i + 1;
    }
    proof {
        lemma_comma_at(l@, i as int);
    }
    if i == cs.len() {
        return None;
    }
    let a = string_of(&cs, 0, i);
    let b = string_of(&cs, i + 1, cs.len());
    assert(a@ =~= l@.take(i as int));
    assert(b@ =~= l@.skip(i + 1));
    Some((a, b))
}

/// The log of the `christmas` branch, one `author,commit` line each, read as pairs; `None`
/// when a line has no comma.
pub fn parse_commit_log(log: &str) -> (r: Option<Vec<(String, String)>>)
    ensures
        log_well_formed(log@) <==> r is Some,
        r matches Some(v) ==> v@.len() == lines_of(log@).len() && forall|i: int|
            0 <= i < v@.len() ==> split_line(lines_of(log@)[i]) == Some(
                ((#[trigger] v@[i]).0@, v@[i].1@),
            ),
{
    let ls = lines(log);
    let mut out: Vec<(String, String)> = Vec::new();
    let mut i: usize = 0;
    while i < ls.len()
        invariant
            ls@.len() == lines_of(log@).len(),
            forall|j: int| 0 <= j < ls@.len() ==> #[trigger] ls@[j]@ == lines_of(log@)[j],
            i <= ls@.len(),
            out@.len() == i,
            forall|j: int|
                0 <= j < i ==> split_line(lines_of(log@)[j]) == Some(
                    ((#[trigger] out@[j]).0@, out@[j].1@),
                ),
        decreases ls.len() - i,
    {
        match split_at_comma(ls[i].as_str()) {
            None => {
                assert(split_line(lines_of(log@)[i as int]) is None);
                return None;
            },
            Some(pair) => {
                out.push(pair);
            },
        }
        i = i + 1;
    }
    assert forall|j: int| 0 <= j < lines_of(log@).len() implies #[trigger] split_line(
        lines_of(log@)[j],
    ) is Some by {
        assert(split_line(lines_of(log@)[j]) == Some((out@[j].0@, out@[j].1@)));
    }
    Some(out)
}

/// `s` contains `pat` somewhere.
pub open spec fn contains_text(s: Seq<char>, pat: Seq<char>) -> bool {
    exists|i: int| 0 <= i && i + pat.len() <= s.len() && #[trigger] s.subrange(i, i + pat.len()) == pat
}

pub open spec fn cookie_word() -> Seq<char> {
    seq!['C', 'O', 'O', 'K', 'I', 'E']
}

/// One commit of the search: given the text of `santa.txt` in it, if the file was found,
/// the answer `"author commit"` when the text holds `COOKIE`; `None` to go on searching.
pub fn cookie_step(author: &str, commit: &str, santa: Option<&str>) -> (r: Option<String>)
    ensures
        match santa {
            Some(t) => if contains_text(t@, cookie_word()) {
                r matches Some(s) && s@ == author@ + seq![' '] + commit@
            } else {
                r is None
            },
            None => r is None,
        },
{
    match santa {
        None => None,
        Some(t) => {
            let cs = chars_of(t);
            let n = cs.len();
            let mut i: usize = 0;
            let mut found = false;
            while n >= 6 && i <= n - 6 && !found
                invariant
                    cs@ == t@,
                    n == cs@.len(),
                    found ==> contains_text(t@, cookie_word()),
                    !found ==> forall|j: int| 0 <= j < i ==> #[trigger] t@.subrange(j, j + 6) != cookie_word(),
                decreases n - i, if found { 0int } else { 1int },
            {
                if cs[i] == 'C' && cs[i + 1] == 'O' && cs[i + 2] == 'O' && cs[i + 3] == 'K' && cs[i + 4] == 'I' && cs[i + 5] == 'E' {
                    assert(t@.subrange(i as int, i + 6) =~= cookie_word());
                    found = true;
                } else {
                    proof {
                        let w = t@.subrange(i as int, i + 6);
                        if w == cookie_word() {
                            assert(w[0] == 'C' && w[1] == 'O' && w[2] == 'O');
                            assert(w[3] == 'K' && w[4] == 'I' && w[5] == 'E');
                        }
                    }
                    i = i + 1;
                }
            }
            if found {
                let mut s = String::from_str(author);
                append(&mut s, " ");
                append(&mut s, commit);
                proof {
                    reveal_strlit(" ");
                    assert(s@ =~= author@ + seq![' '] + commit@);
                }
                Some(s)
            } else {
                proof {
                    assert(cookie_word().len() == 6);
                }
                None
            }
        },
    }
}

/// The answer when no commit holds the cookie.
pub fn no_cookie() -> (r: (Status, String))
    ensures
        r.0.code == 400,
        r.1@ == "Could not find santa's cookie."@,
{
    (Status { code: 400 }, String::from_str("Could not find santa's cookie."))
}

} // verus!
