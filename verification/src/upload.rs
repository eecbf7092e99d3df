//! The decisions of the upload server: which basic credentials it admits,
//! and the listing it answers a successful upload with.
use vstd::prelude::*;
use vstd::string::*;

verus! {

/// Whether basic credentials match the expected user and password: the user
/// must be equal and a password must be given and be equal.
pub open spec fn credentials_match(
    user_id: Seq<char>,
    password: Seq<char>,
    given_user_id: Seq<char>,
    given_password: Option<Seq<char>>,
) -> bool {
    given_user_id == user_id && given_password == Some(password)
}

/// Checks basic credentials against the expected user and password.
pub fn credentials_accepted(
    user_id: &str,
    password: &str,
    given_user_id: &str,
    given_password: Option<&str>,
) -> (ok: bool)
    ensures
        ok == credentials_match(
            user_id@,
            password@,
            given_user_id@,
            match given_password {
                Some(p) => Some(p@),
                None => None,
            },
        ),
{
    match given_password {
        Some(p) => given_user_id.to_owned() == user_id.to_owned() && p.to_owned()
            == password.to_owned(),
        None => false,
    }
}

/// One line of the listing: `name -> stored` when the upload named its
/// file, and just `stored` when it did not.
pub open spec fn listing_line(name: Option<Seq<char>>, stored: Seq<char>) -> Seq<char> {
    match name {
        Some(n) => n + " -> "@ + stored,
        None => stored,
    }
}

/// Lines joined with a newline between each two of them.
pub open spec fn joined_lines(lines: Seq<Seq<char>>) -> Seq<char>
    decreases lines.len(),
{
    if lines.len() == 0 {
        Seq::empty()
    } else if lines.len() == 1 {
        lines[0]
    } else {
        joined_lines(lines.drop_last()) + seq!['\n'] + lines.last()
    }
}

/// The line of one stored upload: its name, if it had one, and the name it
/// was stored under.
pub open spec fn entry_line(entry: (Option<String>, String)) -> Seq<char> {
    listing_line(
        match entry.0 {
            Some(n) => Some(n@),
            None => None,
        },
        entry.1@,
    )
}

/// The reply body after an upload: one line per stored file, in the order
/// of upload.
pub fn created_listing(entries: &Vec<(Option<String>, String)>) -> (body: String)
    ensures
        body@ == joined_lines(entries@.map_values(|e: (Option<String>, String)| entry_line(e))),
{
    let ghost lines = entries@.map_values(|e: (Option<String>, String)| entry_line(e));
    let mut body = String::new();
    let n = entries.len();
    for i in 0..n
        invariant
            n == entries@.len(),
            lines == entries@.map_values(|e: (Option<String>, String)| entry_line(e)),
            body@ == joined_lines(lines.take(i as int)),
    {
        let ghost before = body@;
        if i > 0 {
            body.append("\n");
        }
        let (name, stored) = &entries[i];
        match name {
            Some(n) => {
                body.append(n.as_str());
                body.append(" -> ");
            },
            None => {},
        }
        body.append(stored.as_str());
        proof {
            reveal_strlit("\n");
            let t = lines.take(i + 1);
            assert(t.drop_last() =~= lines.take(i as int));
            assert(t.last() == entry_line(entries@[i as int]));
            if i == 0 {
                assert(t.len() == 1);
                assert(body@ =~= t[0]);
            } else {
                assert(body@ =~= joined_lines(lines.take(i as int)) + seq!['\n'] + t.last());
            }
        }
    }
    assert(lines.take(n as int) =~= lines);
    body
}

/// The server admits exactly the user and password it expects: any user
/// and password given back unchanged are admitted, and nothing else is.
pub proof fn law_credentials_exact(
    user_id: Seq<char>,
    password: Seq<char>,
    given_user_id: Seq<char>,
    given_password: Option<Seq<char>>,
)
    ensures
        credentials_match(user_id, password, user_id, Some(password)),
        credentials_match(user_id, password, given_user_id, given_password) == (given_user_id
            == user_id && given_password == Some(password)),
{
}

} // verus!
