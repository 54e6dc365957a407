//! The titled lines of the report: operating system, user, host, kernel and
//! machine model.

use vstd::prelude::*;
use vstd::utf8::{decode_utf8, valid_utf8};
use crate::text::{is_white_space, lemma_trim_span, chars_of, lossy_utf8, push_str, string_of, trim, trim_chars, utf8_lossy_string};

verus! {

/// One line of the report: a title and its text.
pub struct Style {
    pub title: String,
    pub text: String,
}

/// `Some` line with exactly the given title and text.
pub open spec fn is_line(res: Option<Style>, title: Seq<char>, text: Seq<char>) -> bool {
    match res {
        Some(st) => st.title@ == title && st.text@ == text,
        None => false,
    }
}

/// What `titlecase::titlecase` makes of `s`.
pub uninterp spec fn titlecased(s: Seq<char>) -> Seq<char>;

/// Puts `s` in title case with `titlecase::titlecase`. The result is the
/// named value `titlecased(s)`: the crate's rules (trimming, small words,
/// acronyms, internal capitals, paths) are left unstated.
#[verifier::external_body]
fn title_case(s: &str) -> (r: String)
    ensures
        r@ == titlecased(s@),
{
    titlecase::titlecase(s)
}

/// The operating-system line for the distribution name `distro`.
pub fn get_os(distro: String) -> (res: Option<Style>)
    ensures
        is_line(res, "OS"@, distro@),
{
    Some(Style { title: "OS".to_owned(), text: distro })
}

/// The user line: the user name in title case.
pub fn get_user(user: &str) -> (res: Option<Style>)
    ensures
        is_line(res, "User"@, titlecased(user@)),
{
    Some(Style { title: "User".to_owned(), text: title_case(user) })
}

/// The host line: the host name in title case.
pub fn get_host(host: &str) -> (res: Option<Style>)
    ensures
        is_line(res, "Host"@, titlecased(host@)),
{
    Some(Style { title: "Host".to_owned(), text: title_case(host) })
}

/// The kernel line for the kernel release `release`.
pub fn get_kernel(release: String) -> (res: Option<Style>)
    ensures
        is_line(res, "Kernel"@, release@),
{
    Some(Style { title: "Kernel".to_owned(), text: release })
}

/// Where the machine model comes from on each kind of system.
pub enum ModelSource {
    /// Unix: the DMI product name and product version files.
    Unix { product_name: String, product_version: String },
    /// Windows: the output of `wmic computersystem get manufacturer,model`.
    Windows { wmic_output: Vec<u8> },
    /// macOS: the output of `sysctl -n hw.model`, already decoded.
    Macos { sysctl_output: String },
    /// Any other system.
    Unknown,
}

/// The model text for each source: trimmed name and version joined by a
/// space; the trimmed, leniently decoded `wmic` output; the `sysctl` output
/// as it is; or `"Unknown"`.
pub open spec fn model_text(source: ModelSource) -> Seq<char> {
    match source {
        ModelSource::Unix { product_name, product_version } =>
            trim(product_name@) + " "@ + trim(product_version@),
        ModelSource::Windows { wmic_output } => if valid_utf8(wmic_output@) {
            trim(decode_utf8(wmic_output@))
        } else {
            trim(lossy_utf8(wmic_output@))
        },
        ModelSource::Macos { sysctl_output } => sysctl_output@,
        ModelSource::Unknown => "Unknown"@,
    }
}

/// `t` is `d` with only the whitespace at its two ends removed: a
/// contiguous part of `d` that keeps everything between its first and last
/// non-blank characters.
pub open spec fn trimmed_whole(t: Seq<char>, d: Seq<char>) -> bool {
    exists|i: int, j: int|
        0 <= i <= j <= d.len() && t == d.subrange(i, j) && (forall|k: int|
            0 <= k < i ==> is_white_space(#[trigger] d[k])) && (forall|k: int|
            j <= k < d.len() ==> is_white_space(#[trigger] d[k])) && (i < j ==> !is_white_space(d[i])
            && !is_white_space(d[j - 1]))
}

/// The model text of `wmic` output is the whole decoded output with only
/// the whitespace at its two ends removed, so every non-blank line of it is
/// kept: the plain decoding where the output is valid UTF-8, the lenient
/// one otherwise.
pub proof fn lemma_windows_model_keeps_output(wmic_output: Vec<u8>)
    ensures
        valid_utf8(wmic_output@) ==> trimmed_whole(
            model_text(ModelSource::Windows { wmic_output }),
            decode_utf8(wmic_output@),
        ),
        !valid_utf8(wmic_output@) ==> trimmed_whole(
            model_text(ModelSource::Windows { wmic_output }),
            lossy_utf8(wmic_output@),
        ),
{
    let d = if valid_utf8(wmic_output@) {
        decode_utf8(wmic_output@)
    } else {
        lossy_utf8(wmic_output@)
    };
    let (i, j) = lemma_trim_span(d);
    assert(model_text(ModelSource::Windows { wmic_output }) == d.subrange(i, j));
}

/// The model line.
pub fn get_model(source: ModelSource) -> (res: Option<Style>)
    ensures
        is_line(res, "Model"@, model_text(source)),
{
    let text = match source {
        ModelSource::Unix { product_name, product_version } => {
            let mut v = trim_chars(&chars_of(product_name.as_str()));
            push_str(&mut v, " ");
            let w = trim_chars(&chars_of(product_version.as_str()));
            crate::text::push_chars(&mut v, &w);
            string_of(&v)
        },
        ModelSource::Windows { wmic_output } => {
            let decoded = utf8_lossy_string(wmic_output.as_slice());
            string_of(&trim_chars(&chars_of(decoded.as_str())))
        },
        ModelSource::Macos { sysctl_output } => sysctl_output,
        ModelSource::Unknown => "Unknown".to_owned(),
    };
    Some(Style { title: "Model".to_owned(), text })
}

} // verus!
