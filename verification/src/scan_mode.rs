use vstd::prelude::*;

verus! {

/// Where discovery events come from: this machine's own radio, or a remote
/// mote read over its transport.
#[derive(Debug, Clone, Copy, PartialEq, Eq, Structural)]
pub enum ScanMode {
    Local,
    Mote,
}

/// Case-insensitive match against a lowercase keyword, folding only the
/// basic uppercase letters as the mode names need.
pub open spec fn matches_keyword(s: Seq<char>, kw: Seq<char>) -> bool {
    s.len() == kw.len() && forall|i: int|
        0 <= i < s.len() ==> #[trigger] s[i] == kw[i] || (65 <= s[i] as u32 <= 90 && s[i] as u32
            + 32 == kw[i] as u32)
}

/// Decides [`matches_keyword`].
fn keyword_match(s: &str, kw: &str) -> (r: bool)
    ensures
        r == matches_keyword(s@, kw@),
{
    let n = s.unicode_len();
    if n != kw.unicode_len() {
        return false;
    }
    let mut i: usize = 0;
    while i < n
        invariant
            i <= n,
            n == s@.len(),
            n == kw@.len(),
            forall|k: int|
                0 <= k < i ==> #[trigger] s@[k] == kw@[k] || (65 <= s@[k] as u32 <= 90 && s@[k]
                    as u32 + 32 == kw@[k] as u32),
        decreases n - i,
    {
        let a = s.get_char(i);
        let b = kw.get_char(i);
        let au = a as u32;
        let bu = b as u32;
        if !(a == b || (65 <= au && au <= 90 && au + 32 == bu)) {
            return false;
        }
        i = i + 1;
    }
    true
}

impl ScanMode {
    /// The mode a command-line word names, ASCII case aside; any other word
    /// is refused with a message naming it.
    pub fn from_str(s: &str) -> (r: Result<ScanMode, String>)
        ensures
            matches_keyword(s@, "local"@) ==> r == Result::<ScanMode, String>::Ok(ScanMode::Local),
            !matches_keyword(s@, "local"@) && matches_keyword(s@, "mote"@) ==> r == Result::<
                ScanMode,
                String,
            >::Ok(ScanMode::Mote),
            !matches_keyword(s@, "local"@) && !matches_keyword(s@, "mote"@) ==> r is Err
                && r->Err_0@ == "Invalid scan mode: "@ + s@ + ". Must be 'local' or 'mote'"@,
    {
        if keyword_match(s, "local") {
            Ok(ScanMode::Local)
        } else if keyword_match(s, "mote") {
            Ok(ScanMode::Mote)
        } else {
            let mut m = String::from_str("Invalid scan mode: ");
            m.append(s);
            m.append(". Must be 'local' or 'mote'");
            Err(m)
        }
    }
}

} // verus!
