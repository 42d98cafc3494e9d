//! The user whose processes are shown: from a user name or a numeric UID,
//! or the user running the program, looked up in the user database.
use vstd::prelude::*;
use vstd::string::StringExecFns;

use crate::text::append_decimal;
use crate::text::chars_of;
use crate::text::decimal;
use crate::text::digits_value;
use crate::text::is_digit;
use crate::text::parse_u32;
use crate::text::parse_u32_range;

verus! {

/// A user by name and UID.
#[derive(Debug, Clone, PartialEq, Eq)]
pub struct TargetUser {
    pub name: String,
    pub uid: u32,
}

/// `uid=<uid>`, how a user without a name is shown.
pub open spec fn uid_text(uid: u32) -> Seq<char> {
    "uid="@ + decimal(uid as nat)
}

/// How a user is shown above the process tree: `<name> uid=<uid>`, or only
/// `uid=<uid>` where that is the name itself.
pub open spec fn label_text(name: Seq<char>, uid: u32) -> Seq<char> {
    if name == uid_text(uid) {
        uid_text(uid)
    } else {
        name + " "@ + uid_text(uid)
    }
}

/// `uid=<uid>` as a string.
fn uid_string(uid: u32) -> (r: String)
    ensures
        r@ == uid_text(uid),
{
    let mut r = String::from_str("uid=");
    append_decimal(&mut r, uid as u64);
    r
}

impl TargetUser {
    /// The line that heads the process tree: `<name> uid=<uid>`, or
    /// `uid=<uid>` alone when the name is just that.
    pub fn label(&self) -> (r: String)
        ensures
            r@ == label_text(self.name@, self.uid),
    {
        let uid_label = uid_string(self.uid);
        if self.name == uid_label {
            uid_label
        } else {
            let mut r = String::from_str(self.name.as_str());
            r.append(" ");
            r.append(uid_label.as_str());
            r
        }
    }
}

/// Names what `nix::errno::Errno`'s `Display` writes for the error of the
/// given raw code: its symbolic name and description.
pub uninterp spec fn errno_description(code: i32) -> Seq<char>;

/// Calls `nix::unistd::User::from_uid` (`getpwuid_r`): the name of the
/// user with this UID in the user database, `None` where there is none, or
/// the raw code of the error. What the database holds is not stated.
#[verifier::external_body]
fn name_for_uid(uid: u32) -> (r: Result<Option<String>, i32>) {
    match nix::unistd::User::from_uid(nix::unistd::Uid::from_raw(uid)) {
        Ok(found) => Ok(found.map(|user| user.name)),
        Err(error) => Err(error as i32),
    }
}

/// A user found in the user database.
pub struct UserEntry {
    pub name: String,
    pub uid: u32,
}

/// What a lookup in the user database answers: the user found, if any, or
/// the raw code of the error.
pub type UserLookup = Result<Option<UserEntry>, i32>;

/// Whether a lookup answered that there is no such user.
pub open spec fn finds_nobody(r: UserLookup) -> bool {
    r matches Ok(found) && found is None
}

/// Whether `s` holds a NUL character, which no C string can.
pub open spec fn has_nul(s: Seq<char>) -> bool {
    s.contains('\0')
}

/// Calls `nix::unistd::User::from_name` (`getpwnam_r`): the name and UID of
/// the user so named in the user database, `None` where there is none, or
/// the raw code of the error. Only what the source shows of every database
/// is claimed: a name holding a NUL character finds no user.
#[verifier::external_body]
fn user_by_name(name: &str) -> (r: UserLookup)
    ensures
        has_nul(name@) ==> finds_nobody(r),
{
    match nix::unistd::User::from_name(name) {
        Ok(found) => Ok(found.map(|user| UserEntry { name: user.name, uid: user.uid.as_raw() })),
        Err(error) => Err(error as i32),
    }
}

/// Calls `Display` of `nix::errno::Errno` on the error of this raw code.
#[verifier::external_body]
fn errno_text(code: i32) -> (r: String)
    ensures
        r@ == errno_description(code),
{
    nix::errno::Errno::from_raw(code).to_string()
}

/// Calls `nix::unistd::Uid::current` (`getuid`): the real UID of this
/// process, which nothing here states.
#[verifier::external_body]
fn real_uid() -> (r: u32) {
    nix::unistd::Uid::current().as_raw()
}

/// The user of UID `uid` with the name that the user database gave, or
/// named `uid=<uid>` where it gave none.
pub fn target_for_uid(uid: u32, found: Option<String>) -> (r: TargetUser)
    ensures
        r.uid == uid,
        r.name@ == match found {
            Some(name) => name@,
            None => uid_text(uid),
        },
{
    match found {
        Some(name) => TargetUser { name, uid },
        None => TargetUser { name: uid_string(uid), uid },
    }
}

/// The error message of a failed lookup of the user `input`.
pub open spec fn lookup_failure_text(input: Seq<char>, description: Seq<char>) -> Seq<char> {
    "failed to resolve user "@ + input + ": "@ + description
}

/// The user named `input`, from what the user database answered: the user
/// found, `unknown user: <input>` where there is none, or the lookup error.
pub fn target_from_lookup(input: &str, lookup: Result<Option<UserEntry>, String>) -> (r: Result<
    TargetUser,
    String,
>)
    ensures
        match lookup {
            Ok(Some(entry)) => r matches Ok(t) && t.name@ == entry.name@ && t.uid == entry.uid,
            Ok(None) => r matches Err(e) && e@ == "unknown user: "@ + input@,
            Err(description) => r matches Err(e) && e@ == lookup_failure_text(input@, description@),
        },
{
    match lookup {
        Ok(Some(entry)) => Ok(TargetUser { name: entry.name, uid: entry.uid }),
        Ok(None) => {
            let mut e = String::from_str("unknown user: ");
            e.append(input);
            Err(e)
        },
        Err(description) => {
            let mut e = String::from_str("failed to resolve user ");
            e.append(input);
            e.append(": ");
            e.append(description.as_str());
            Err(e)
        },
    }
}

/// Whether `s` holds at least one character and only ASCII digits.
pub open spec fn is_number(s: Seq<char>) -> bool {
    s.len() > 0 && forall|i: int| 0 <= i < s.len() ==> is_digit(#[trigger] s[i])
}

/// The user that a command-line argument names: a numeric UID, shown with
/// its name from the user database where there is one, or else a user name
/// looked up there. Empty input and a number beyond the range of UIDs are
/// refused.
pub fn resolve_user_or_uid(input: &str) -> (r: Result<TargetUser, String>)
    ensures
        input@.len() == 0 ==> (r matches Err(e) && e@ == "empty user or UID"@),
        is_number(input@) && parse_u32(input@) is None ==> (r matches Err(e) && e@
            == "invalid UID: "@ + input@),
        is_number(input@) ==> (parse_u32(input@) matches Some(uid) ==> (r matches Ok(t) && t.uid
            == uid)),
        input@.len() > 0 && !is_number(input@) ==> match r {
            Ok(_) => true,
            Err(e) => e@ == "unknown user: "@ + input@ || exists|c: i32|
                e@ == #[trigger] lookup_failure_text(input@, errno_description(c)),
        },
        input@.len() > 0 && !is_number(input@) && has_nul(input@) ==> (r matches Err(e) && e@
            == "unknown user: "@ + input@),
{
    let s = chars_of(input);
    if s.len() == 0 {
        return Err(String::from_str("empty user or UID"));
    }
    let mut all_digits = true;
    let mut i: usize = 0;
    while i < s.len()
        invariant
            s@ == input@,
            0 <= i <= s@.len(),
            all_digits == forall|k: int| 0 <= k < i ==> is_digit(#[trigger] s@[k]),
        decreases s@.len() - i,
    {
        if !('0' <= s[i] && s[i] <= '9') {
            all_digits = false;
        }
        i = i + 1;
    }
    if all_digits {
        assert(s@.subrange(0, s@.len() as int) =~= input@);
        match parse_u32_range(&s, 0, s.len()) {
            None => {
                let mut e = String::from_str("invalid UID: ");
                e.append(input);
                Err(e)
            },
            Some(uid) => {
                let found = match name_for_uid(uid) {
                    Ok(found) => found,
                    Err(_) => None,
                };
                Ok(target_for_uid(uid, found))
            },
        }
    } else {
        let lookup = match user_by_name(input) {
            Ok(found) => Ok(found),
            Err(code) => Err(errno_text(code)),
        };
        target_from_lookup(input, lookup)
    }
}

/// The user running this program, by its real UID, with its name from the
/// user database where there is one and `uid=<uid>` otherwise.
pub fn current_user() -> (r: Result<TargetUser, String>)
    ensures
        r is Ok,
{
    let uid = real_uid();
    let found = match name_for_uid(uid) {
        Ok(found) => found,
        Err(_) => None,
    };
    Ok(target_for_uid(uid, found))
}

} // verus!
