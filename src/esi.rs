//! Decisions of the rate-limited market API client: how a response is
//! classified, how the page count is read, which pages follow the first, and
//! how the pages of one resource are put together.
use vstd::prelude::*;

verus! {

/// Why a request to the market API gave no usable answer.
#[derive(Clone, Copy, Debug, PartialEq, Eq, Structural)]
pub enum EsiError {
    /// HTTP status 420: the upstream error limit was reached.
    RateLimited,
    /// Any other HTTP status of 400 or more.
    ErrorResponse,
    /// A paginated response carried no usable total-page-count header.
    NoPages,
    /// The request never got an answer (transport failure).
    ConnectionError,
    /// The body could not be decoded into the expected shape.
    DecodeError,
    /// The item is no longer published; its history is skipped.
    NotPublished(u64),
}

/// The HTTP status that signals the upstream rate limit.
pub const RATE_LIMITED_STATUS: u16 = 420;

/// The lowest HTTP status that is an error.
pub const FIRST_ERROR_STATUS: u16 = 400;

/// The outcome of a response with HTTP status `status`, before its body is read.
pub open spec fn status_outcome(status: u16) -> Result<(), EsiError> {
    if status == RATE_LIMITED_STATUS {
        Err(EsiError::RateLimited)
    } else if status >= FIRST_ERROR_STATUS {
        Err(EsiError::ErrorResponse)
    } else {
        Ok(())
    }
}

/// Classifies a response by its HTTP status.
pub fn classify_status(status: u16) -> (r: Result<(), EsiError>)
    ensures
        r == status_outcome(status),
{
    if status == RATE_LIMITED_STATUS {
        Err(EsiError::RateLimited)
    } else if status >= FIRST_ERROR_STATUS {
        Err(EsiError::ErrorResponse)
    } else {
        Ok(())
    }
}

/// An ASCII decimal digit.
pub open spec fn is_digit(b: u8) -> bool {
    0x30 <= b <= 0x39
}

/// The value of a string of ASCII decimal digits.
pub open spec fn decimal_value(s: Seq<u8>) -> int
    decreases s.len(),
{
    if s.len() == 0 {
        0
    } else {
        decimal_value(s.drop_last()) * 10 + (s.last() - 0x30)
    }
}

/// A header value that reads as a page count: one or more ASCII digits.
pub open spec fn is_decimal(s: Seq<u8>) -> bool {
    s.len() > 0 && forall|i: int| 0 <= i < s.len() ==> is_digit(#[trigger] s[i])
}

/// The bytes of an optional header value.
pub open spec fn header_view(header: Option<&[u8]>) -> Option<Seq<u8>> {
    match header {
        Some(h) => Some(h@),
        None => None,
    }
}

/// The page count that a total-page-count header states, if it states one
/// that fits in `usize`; else the protocol error `NoPages`.
pub open spec fn page_count_of(header: Option<Seq<u8>>) -> Result<usize, EsiError> {
    match header {
        Some(s) => if is_decimal(s) && decimal_value(s) <= usize::MAX {
            Ok(decimal_value(s) as usize)
        } else {
            Err(EsiError::NoPages)
        },
        None => Err(EsiError::NoPages),
    }
}

proof fn lemma_decimal_value_nonneg(s: Seq<u8>)
    requires
        forall|i: int| 0 <= i < s.len() ==> is_digit(#[trigger] s[i]),
    ensures
        0 <= decimal_value(s),
    decreases s.len(),
{
    if s.len() > 0 {
        let t = s.drop_last();
        assert forall|i: int| 0 <= i < t.len() implies is_digit(#[trigger] t[i]) by {
            assert(t[i] == s[i]);
        }
        lemma_decimal_value_nonneg(t);
    }
}

proof fn lemma_decimal_value_grows(s: Seq<u8>, j: int, k: int)
    requires
        0 <= j <= k <= s.len(),
        forall|i: int| 0 <= i < s.len() ==> is_digit(#[trigger] s[i]),
    ensures
        decimal_value(s.take(j)) <= decimal_value(s.take(k)),
    decreases k - j,
{
    if j < k {
        lemma_decimal_value_grows(s, j, k - 1);
        let t = s.take(k - 1);
        assert(s.take(k).drop_last() =~= t);
        assert forall|i: int| 0 <= i < t.len() implies is_digit(#[trigger] t[i]) by {
            assert(t[i] == s[i]);
        }
        lemma_decimal_value_nonneg(t);
    }
}

/// Reads the total page count from the value of the total-page-count header
/// of a first page. An absent header, or one that is not a decimal number
/// that fits in `usize`, is the fatal protocol error `NoPages`.
pub fn extract_pages(header: Option<&[u8]>) -> (r: Result<usize, EsiError>)
    ensures
        r == page_count_of(header_view(header)),
{
    let bytes = match header {
        Some(h) => h,
        None => return Err(EsiError::NoPages),
    };
    assert(header_view(header) == Some(bytes@));
    if bytes.len() == 0 {
        return Err(EsiError::NoPages);
    }
    let mut value: usize = 0;
    let mut i: usize = 0;
    while i < bytes.len()
        invariant
            header_view(header) == Some(bytes@),
            bytes@.len() > 0,
            i <= bytes@.len(),
            value == decimal_value(bytes@.take(i as int)),
            forall|k: int| 0 <= k < i ==> is_digit(#[trigger] bytes@[k]),
        decreases bytes@.len() - i,
    {
        let b = bytes[i];
        assert(bytes@.take(i + 1).drop_last() =~= bytes@.take(i as int));
        if b < 0x30 || b > 0x39 {
            assert(!is_digit(bytes@[i as int]));
            assert(!is_decimal(bytes@));
            return Err(EsiError::NoPages);
        }
        let digit = (b - 0x30) as usize;
        if value > (usize::MAX - digit) / 10 {
            proof {
                assert(decimal_value(bytes@.take(i + 1)) > usize::MAX) by (nonlinear_arith)
                    requires
                        decimal_value(bytes@.take(i + 1)) == value * 10 + digit,
                        value > (usize::MAX - digit) / 10,
                        0 <= digit <= 9,
                ;
                if is_decimal(bytes@) {
                    lemma_decimal_value_grows(bytes@, i + 1, bytes@.len() as int);
                    assert(bytes@.take(bytes@.len() as int) =~= bytes@);
                }
            }
            return Err(EsiError::NoPages);
        }
        proof {
            assert(value * 10 + digit <= usize::MAX) by (nonlinear_arith)
                requires
                    value <= (usize::MAX - digit) / 10,
                    0 <= digit <= 9,
            ;
        }
        value = value * 10 + digit;
        i = i + 1;
    }
    assert(bytes@.take(bytes@.len() as int) =~= bytes@);
    Ok(value)
}

/// The pages that follow the first of a resource with `total` pages: 2 to
/// `total`, in order.
pub fn remaining_pages(total: usize) -> (r: Vec<usize>)
    ensures
        r@.len() == if total >= 2 { total - 1 } else { 0 },
        forall|i: int| 0 <= i < r@.len() ==> #[trigger] r@[i] == i + 2,
{
    let mut pages: Vec<usize> = Vec::new();
    let mut page: usize = 2;
    while page <= total
        invariant
            2 <= page,
            page <= total + 1 || total < 2,
            total < 2 ==> page == 2,
            pages@.len() == page - 2,
            forall|i: int| 0 <= i < pages@.len() ==> #[trigger] pages@[i] == i + 2,
        decreases total + 1 - page,
    {
        pages.push(page);
        if page == usize::MAX {
            return pages;
        }
        page = page + 1;
    }
    pages
}

/// The items of the later pages, in page order; a failed page contributes none.
pub open spec fn later_items<T>(rest: Seq<Result<Vec<T>, EsiError>>) -> Seq<T>
    decreases rest.len(),
{
    if rest.len() == 0 {
        Seq::empty()
    } else {
        later_items(rest.drop_last()) + match rest.last() {
            Ok(v) => v@,
            Err(_) => Seq::empty(),
        }
    }
}

/// The error of the first failed page, if any page failed.
pub open spec fn first_error<T>(rest: Seq<Result<Vec<T>, EsiError>>) -> Option<EsiError>
    decreases rest.len(),
{
    if rest.len() == 0 {
        None
    } else {
        match first_error(rest.drop_last()) {
            Some(e) => Some(e),
            None => match rest.last() {
                Ok(_) => None,
                Err(e) => Some(e),
            },
        }
    }
}

proof fn lemma_first_error_some<T>(rest: Seq<Result<Vec<T>, EsiError>>, i: int)
    requires
        0 <= i < rest.len(),
        rest[i] is Err,
    ensures
        first_error(rest) is Some,
    decreases rest.len(),
{
    if i < rest.len() - 1 {
        lemma_first_error_some(rest.drop_last(), i);
    }
}

/// A rate-limited response is classified as `RateLimited` before its body
/// is read.
pub proof fn lemma_rate_limit_status()
    ensures
        status_outcome(RATE_LIMITED_STATUS) == Err::<(), EsiError>(EsiError::RateLimited),
{
}

/// Any failed page (a rate-limited one among them) makes the whole resource
/// fail.
pub proof fn lemma_failed_page_fails<T>(rest: Seq<Result<Vec<T>, EsiError>>, i: int)
    requires
        0 <= i < rest.len(),
        rest[i] is Err,
    ensures
        first_error(rest) is Some,
{
    lemma_first_error_some(rest, i);
}

proof fn lemma_first_error_only<T>(rest: Seq<Result<Vec<T>, EsiError>>, i: int)
    requires
        0 <= i < rest.len(),
        forall|k: int| 0 <= k < rest.len() && k != i ==> (#[trigger] rest[k]) is Ok,
    ensures
        first_error(rest) == match rest[i] {
            Ok(_) => None::<EsiError>,
            Err(e) => Some(e),
        },
    decreases rest.len(),
{
    let prev = rest.drop_last();
    if i < rest.len() - 1 {
        assert forall|k: int| 0 <= k < prev.len() && k != i implies (#[trigger] prev[k]) is Ok by {
            assert(prev[k] == rest[k]);
        }
        lemma_first_error_only(prev, i);
        assert(rest.last() == rest[rest.len() - 1]);
    } else {
        assert forall|k: int| 0 <= k < prev.len() implies (#[trigger] prev[k]) is Ok by {
            assert(prev[k] == rest[k]);
        }
        lemma_first_error_none(prev, prev.len() as int);
        assert(prev.take(prev.len() as int) =~= prev);
    }
}

proof fn lemma_first_error_none<T>(rest: Seq<Result<Vec<T>, EsiError>>, n: int)
    requires
        0 <= n <= rest.len(),
        forall|k: int| 0 <= k < n ==> (#[trigger] rest[k]) is Ok,
    ensures
        first_error(rest.take(n)) is None,
    decreases n,
{
    if n > 0 {
        assert(rest.take(n).drop_last() =~= rest.take(n - 1));
        lemma_first_error_none(rest, n - 1);
    }
}

/// A rate-limited page among pages that all arrived fails the resource with
/// exactly `RateLimited`.
pub proof fn lemma_rate_limited_page<T>(rest: Seq<Result<Vec<T>, EsiError>>, i: int)
    requires
        0 <= i < rest.len(),
        rest[i] == Err::<Vec<T>, EsiError>(EsiError::RateLimited),
        forall|k: int| 0 <= k < rest.len() && k != i ==> (#[trigger] rest[k]) is Ok,
    ensures
        first_error(rest) == Some(EsiError::RateLimited),
{
    lemma_first_error_only(rest, i);
}

/// Puts together a paginated resource from its first page and the outcomes of
/// the later pages. The resource is whole only when every page arrived: the
/// first failed page (in page order) fails it, and no page is dropped silently.
pub fn collect_pages<T>(first: Vec<T>, rest: Vec<Result<Vec<T>, EsiError>>) -> (r: Result<
    Vec<T>,
    EsiError,
>)
    ensures
        first_error(rest@) is Some ==> r == Err::<Vec<T>, EsiError>(first_error(rest@).unwrap()),
        first_error(rest@) is None ==> r is Ok && r.unwrap()@ == first@ + later_items(rest@),
{
    let ghost pages = rest@;
    let mut outcomes = rest;
    let mut items = first;
    let mut i: usize = 0;
    while i < outcomes.len()
        invariant
            pages == rest@,
            outcomes@.len() == pages.len(),
            i <= pages.len(),
            forall|k: int| i <= k < pages.len() ==> #[trigger] outcomes@[k] == pages[k],
            first_error(pages.take(i as int)) is None,
            items@ == first@ + later_items(pages.take(i as int)),
        decreases pages.len() - i,
    {
        let mut page: Result<Vec<T>, EsiError> = Ok(Vec::new());
        std::mem::swap(&mut page, &mut outcomes[i]);
        assert(page == pages[i as int]);
        assert(pages.take(i + 1).drop_last() =~= pages.take(i as int));
        assert(pages.take(i + 1).last() == pages[i as int]);
        match page {
            Ok(mut v) => {
                items.append(&mut v);
            },
            Err(e) => {
                proof {
                    assert(first_error(pages.take(i + 1)) == Some(e));
                    lemma_first_error_prefix(pages, i + 1);
                    assert(first_error(pages) == Some(e));
                }
                return Err(e);
            },
        }
        i = i + 1;
    }
    assert(pages.take(pages.len() as int) =~= pages);
    Ok(items)
}

proof fn lemma_first_error_prefix<T>(rest: Seq<Result<Vec<T>, EsiError>>, n: int)
    requires
        0 <= n <= rest.len(),
        first_error(rest.take(n)) is Some,
    ensures
        first_error(rest) == first_error(rest.take(n)),
    decreases rest.len() - n,
{
    if n < rest.len() {
        assert(rest.take(n + 1).drop_last() =~= rest.take(n));
        lemma_first_error_prefix(rest, n + 1);
    } else {
        assert(rest.take(n) =~= rest);
    }
}

} // verus!
