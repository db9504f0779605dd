//! The chat client's decisions.
use vstd::prelude::*;

verus! {

/// Where the client connects, given the user's answer to the question for a
/// server: nowhere where the answer is `Quit`, `localhost:8888` where the
/// answer is empty, and otherwise the answer itself.
pub fn resolve_server_address(answer: String) -> (r: Option<String>)
    ensures
        answer@ == "Quit"@ ==> r is None,
        answer@ != "Quit"@ && answer@.len() == 0 ==> (r matches Some(a) && a@
            == "localhost:8888"@),
        answer@ != "Quit"@ && answer@.len() > 0 ==> (r matches Some(a) && a@ == answer@),
{
    let quit: String = "Quit".to_owned();
    if answer == quit {
        None
    } else if answer.as_str().is_empty() {
        Some("localhost:8888".to_owned())
    } else {
        Some(answer)
    }
}

} // verus!
