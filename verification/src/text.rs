use vstd::prelude::*;

verus! {

/// The lower-case form of a string, as `str::to_lowercase` maps it (the
/// Unicode lower-case mapping of each character); a function of the string
/// alone.
pub uninterp spec fn lowercase_of(s: Seq<char>) -> Seq<char>;

/// Calls `str::to_lowercase`. Its result is named `lowercase_of`, applied to
/// the string: nothing more about it is claimed.
#[verifier::external_body]
pub(crate) fn to_lowercase(s: &str) -> (r: String)
    ensures
        r@ == lowercase_of(s@),
{
    s.to_lowercase()
}

/// The `Debug` rendering of a list of strings, as `format!("{:?}", ..)`
/// writes it for a `Vec<String>` (brackets, quoted and escaped items, ", "
/// between them); a function of the strings alone.
pub uninterp spec fn debug_text_of_strings(strings: Seq<Seq<char>>) -> Seq<char>;

/// The contents of a list of strings.
pub open spec fn strings_view(strings: Seq<String>) -> Seq<Seq<char>> {
    strings.map_values(|s: String| s@)
}

/// Calls `format!("{:?}", strings)` through std's `Debug` impl of
/// `Vec<String>`. Its result is named `debug_text_of_strings`, applied to the
/// contents of the strings: nothing more about it is claimed.
#[verifier::external_body]
pub(crate) fn debug_strings(strings: &Vec<String>) -> (r: String)
    ensures
        r@ == debug_text_of_strings(strings_view(strings@)),
{
    format!("{:?}", strings)
}

/// `s` with every non-overlapping occurrence of `from`, found left to right,
/// replaced by `to` (for a non-empty `from`).
pub open spec fn replace_all(s: Seq<char>, from: Seq<char>, to: Seq<char>) -> Seq<char>
    decreases s.len(),
{
    if from.len() == 0 || s.len() < from.len() {
        s
    } else if s.take(from.len() as int) == from {
        to + replace_all(s.skip(from.len() as int), from, to)
    } else {
        seq![s[0]] + replace_all(s.drop_first(), from, to)
    }
}

/// Calls `str::replace`, which the std documentation describes as replacing
/// all matches of a pattern with another string; matches are found from the
/// left and do not overlap. Only a non-empty pattern is used here.
#[verifier::external_body]
pub(crate) fn replace_text(s: &str, from: &str, to: &str) -> (r: String)
    requires
        from@.len() > 0,
    ensures
        r@ == replace_all(s@, from@, to@),
{
    s.replace(from, to)
}

/// `s` without the `'/'` characters at its end.
pub open spec fn trim_trailing_slashes(s: Seq<char>) -> Seq<char>
    decreases s.len(),
{
    if s.len() > 0 && s.last() == '/' {
        trim_trailing_slashes(s.drop_last())
    } else {
        s
    }
}

/// `s` without the `'/'` characters at its end, as `str::trim_end_matches('/')`
/// gives it.
pub(crate) fn trim_end_slashes(s: &str) -> (r: &str)
    ensures
        r@ == trim_trailing_slashes(s@),
{
    let mut end = s.unicode_len();
    assert(s@.subrange(0, end as int) =~= s@);
    while end > 0 && s.get_char(end - 1) == '/'
        invariant
            end <= s@.len(),
            trim_trailing_slashes(s@.subrange(0, end as int)) == trim_trailing_slashes(s@),
        decreases end,
    {
        assert(s@.subrange(0, end as int).drop_last() =~= s@.subrange(0, end - 1));
        end = end - 1;
    }
    s.substring_char(0, end)
}

} // verus!
