//! # Poll data representation
//! This module describes the data structures for poll data.

use vstd::prelude::*;

verus! {

/// Represents a valid poll response.
///
/// IfNeedBe will be used as little as possible by the scheduling algorithm.
#[derive(Debug, Clone, Copy, PartialEq, Eq, Structural)]
pub enum Response {
    /// The respondent can take a slot
    Yes,
    /// The respondent cannot take a slot
    No,
    /// The respondent is able to take a slot if necessary
    IfNeedBe,
}

/// The poll exports that can be read.
#[derive(Debug, Clone, Copy, PartialEq, Eq, Structural)]
pub enum PollFormat {
    Framadate,
    Doodle,
    Nextcloud,
}

/// A text that is no response in the given format.
#[derive(Debug)]
pub struct InvalidResponse {
    pub format: PollFormat,
    pub text: String,
}

impl InvalidResponse {
    /// What is wrong, for a reader: the format and the text.
    pub fn message(&self) -> (message: String)
        ensures
            message@ == match self.format {
                PollFormat::Framadate => "Invalid framadate response string: "@ + self.text@,
                PollFormat::Doodle => "Invalid doodle response string: "@ + self.text@,
                PollFormat::Nextcloud => "Invalid nextcloud response string: '"@ + self.text@
                    + "'"@,
            },
    {
        match self.format {
            PollFormat::Framadate => String::from_str("Invalid framadate response string: ").concat(
                self.text.as_str(),
            ),
            PollFormat::Doodle => String::from_str("Invalid doodle response string: ").concat(
                self.text.as_str(),
            ),
            PollFormat::Nextcloud => String::from_str(
                "Invalid nextcloud response string: '",
            ).concat(self.text.as_str()).concat("'"),
        }
    }
}

/// The response that a text stands for in an export of Framadate.
pub open spec fn framadate_response(s: Seq<char>) -> Option<Response> {
    if s == "Yes"@ || s == "Ja"@ {
        Some(Response::Yes)
    } else if s == "No"@ || s == "Nein"@ {
        Some(Response::No)
    } else if s == "Ifneedbe"@ || s == "IfNeedBe"@ || s == "Wenn notwendig"@ {
        Some(Response::IfNeedBe)
    } else {
        None
    }
}

/// The response that a text stands for in an export of Doodle.
pub open spec fn doodle_response(s: Seq<char>) -> Option<Response> {
    if s == "OK"@ {
        Some(Response::Yes)
    } else if s == "(OK)"@ {
        Some(Response::IfNeedBe)
    } else if s == ""@ {
        Some(Response::No)
    } else {
        None
    }
}

/// The response that a text stands for in an export of Nextcloud.
pub open spec fn nextcloud_response(s: Seq<char>) -> Option<Response> {
    if s == "✔"@ {
        Some(Response::Yes)
    } else if s == "❔"@ {
        Some(Response::IfNeedBe)
    } else if s == "❌"@ || s == ""@ {
        Some(Response::No)
    } else {
        None
    }
}

/// The response that a text stands for in an export of the given format.
pub open spec fn response_in(format: PollFormat, s: Seq<char>) -> Option<Response> {
    match format {
        PollFormat::Framadate => framadate_response(s),
        PollFormat::Doodle => doodle_response(s),
        PollFormat::Nextcloud => nextcloud_response(s),
    }
}

/// Whether `result` is the reading of `s` in the given format: the
/// response that `s` stands for, or else the error that names `s`.
pub open spec fn reads_as(
    format: PollFormat,
    s: Seq<char>,
    result: Result<Response, InvalidResponse>,
) -> bool {
    match response_in(format, s) {
        Some(response) => result == Ok::<Response, InvalidResponse>(response),
        None => result is Err && result->Err_0.format == format && result->Err_0.text@ == s,
    }
}

impl Response {
    /// Reads a response as Framadate writes it.
    pub fn from_framadate_str(s: &str) -> (result: Result<Response, InvalidResponse>)
        ensures
            reads_as(PollFormat::Framadate, s@, result),
    {
        if same_text(s, "Yes") || same_text(s, "Ja") {
            Ok(Response::Yes)
        } else if same_text(s, "No") || same_text(s, "Nein") {
            Ok(Response::No)
        } else if same_text(s, "Ifneedbe") || same_text(s, "IfNeedBe") || same_text(
            s,
            "Wenn notwendig",
        ) {
            Ok(Response::IfNeedBe)
        } else {
            Err(InvalidResponse { format: PollFormat::Framadate, text: s.to_owned() })
        }
    }

    /// Reads a response as Doodle writes it.
    pub fn from_doodle_str(s: &str) -> (result: Result<Response, InvalidResponse>)
        ensures
            reads_as(PollFormat::Doodle, s@, result),
    {
        if same_text(s, "OK") {
            Ok(Response::Yes)
        } else if same_text(s, "(OK)") {
            Ok(Response::IfNeedBe)
        } else if same_text(s, "") {
            Ok(Response::No)
        } else {
            Err(InvalidResponse { format: PollFormat::Doodle, text: s.to_owned() })
        }
    }

    /// Reads a response as Nextcloud writes it.
    pub fn from_nextcloud_str(s: &str) -> (result: Result<Response, InvalidResponse>)
        ensures
            reads_as(PollFormat::Nextcloud, s@, result),
    {
        if same_text(s, "✔") {
            Ok(Response::Yes)
        } else if same_text(s, "❔") {
            Ok(Response::IfNeedBe)
        } else if same_text(s, "❌") || same_text(s, "") {
            Ok(Response::No)
        } else {
            Err(InvalidResponse { format: PollFormat::Nextcloud, text: s.to_owned() })
        }
    }

    /// Reads a response as the given format writes it.
    pub fn from_format_str(format: PollFormat, s: &str) -> (result: Result<
        Response,
        InvalidResponse,
    >)
        ensures
            reads_as(format, s@, result),
    {
        match format {
            PollFormat::Framadate => Response::from_framadate_str(s),
            PollFormat::Doodle => Response::from_doodle_str(s),
            PollFormat::Nextcloud => Response::from_nextcloud_str(s),
        }
    }
}

impl std::str::FromStr for Response {
    type Err = InvalidResponse;

    fn from_str(s: &str) -> (result: Result<Response, InvalidResponse>)
        ensures
            reads_as(PollFormat::Framadate, s@, result),
    {
        Response::from_framadate_str(s)
    }
}

/// Marker type for string representation of slots
pub type Slot = String;

/// Marker type for string representation of names
pub type Name = String;

pub type PollData = Vec<PollColumn>;

/// The answers of one slot as plain values: each respondent's name with the
/// response given, in the order in which the respondents were entered.
pub type Answers = Seq<(Seq<char>, Response)>;

/// Represents the poll data for one slot.
///
/// It contains everyone's responses for one time slot, in the order in which
/// they were entered. A well-formed column holds each name once.
#[derive(Debug, Clone)]
pub struct PollColumn {
    pub time: Slot,
    pub responses: Vec<(Name, Response)>,
}

/// Whether no name occurs twice among the answers.
pub open spec fn distinct_names(answers: Answers) -> bool {
    forall|i: int, j: int|
        0 <= i < j < answers.len() ==> (#[trigger] answers[i]).0 != (#[trigger] answers[j]).0
}

/// Whether `name` is among the respondents.
pub open spec fn has_answer(answers: Answers, name: Seq<char>) -> bool {
    exists|j: int| 0 <= j < answers.len() && (#[trigger] answers[j]).0 == name
}

/// The response that `name` gave, if `name` is among the respondents.
pub open spec fn answer_of(answers: Answers, name: Seq<char>) -> Option<Response> {
    if has_answer(answers, name) {
        Some(answers[index_of(answers, name)].1)
    } else {
        None
    }
}

/// The position of `name` among the respondents.
pub open spec fn index_of(answers: Answers, name: Seq<char>) -> int {
    choose|j: int| 0 <= j < answers.len() && (#[trigger] answers[j]).0 == name
}

/// The answers with the response of `name` recorded: in place of an
/// earlier one if `name` is among the respondents, else behind all others.
pub open spec fn put(answers: Answers, name: Seq<char>, response: Response) -> Answers {
    if has_answer(answers, name) {
        answers.update(index_of(answers, name), (name, response))
    } else {
        answers.push((name, response))
    }
}

/// The answers of every slot of a poll, in slot order.
pub open spec fn poll_answers(data: Seq<PollColumn>) -> Seq<Answers> {
    Seq::new(data.len(), |i: int| data[i].answers())
}

/// Whether every column of the poll is well formed.
pub open spec fn poll_wf(data: Seq<PollColumn>) -> bool {
    forall|i: int| 0 <= i < data.len() ==> (#[trigger] data[i]).wf()
}

impl PollColumn {
    /// The answers of this column as plain values.
    pub open spec fn answers(&self) -> Answers {
        Seq::new(self.responses@.len(), |j: int| (self.responses@[j].0@, self.responses@[j].1))
    }

    /// A column is well formed when each respondent occurs once.
    pub open spec fn wf(&self) -> bool {
        distinct_names(self.answers())
    }

    /// Create a new poll column for the given time.
    ///
    /// The column starts without responses.
    pub fn new(time: &str) -> (column: PollColumn)
        ensures
            column.time@ == time@,
            column.answers() == Seq::<(Seq<char>, Response)>::empty(),
            column.wf(),
    {
        let column = PollColumn { time: time.to_owned(), responses: Vec::new() };
        assert(column.answers() =~= Seq::<(Seq<char>, Response)>::empty());
        column
    }

    /// Whether each respondent occurs once.
    pub fn is_wf(&self) -> (ok: bool)
        ensures
            ok == self.wf(),
    {
        let n = self.responses.len();
        let mut j: usize = 0;
        while j < n
            invariant
                j <= n,
                n == self.responses@.len(),
                forall|a: int, b: int|
                    0 <= a < b < j ==> (#[trigger] self.answers()[a]).0 != (
                    #[trigger] self.answers()[b]).0,
            decreases n - j,
        {
            let mut i: usize = 0;
            while i < j
                invariant
                    i <= j < n,
                    n == self.responses@.len(),
                    forall|a: int|
                        0 <= a < i ==> (#[trigger] self.answers()[a]).0 != self.answers()[j as int].0,
                decreases j - i,
            {
                if same_text(self.responses[i].0.as_str(), self.responses[j].0.as_str()) {
                    assert(self.answers()[i as int].0 == self.answers()[j as int].0);
                    return false;
                }
                i += 1;
            }
            j += 1;
        }
        true
    }

    /// The position of `name` among the respondents, if it is there.
    pub fn position(&self, name: &str) -> (found: Option<usize>)
        ensures
            match found {
                Some(j) => j < self.answers().len() && self.answers()[j as int].0 == name@,
                None => !has_answer(self.answers(), name@),
            },
    {
        let mut j: usize = 0;
        while j < self.responses.len()
            invariant
                j <= self.responses@.len(),
                forall|k: int| 0 <= k < j ==> (#[trigger] self.answers()[k]).0 != name@,
            decreases self.responses@.len() - j,
        {
            if same_text(self.responses[j].0.as_str(), name) {
                return Some(j);
            }
            j += 1;
        }
        None
    }

    /// The response that `name` gave in this slot, if any.
    pub fn get(&self, name: &str) -> (found: Option<Response>)
        requires
            self.wf(),
        ensures
            found == answer_of(self.answers(), name@),
    {
        match self.position(name) {
            Some(j) => Some(self.responses[j].1),
            None => None,
        }
    }

    /// Records the response of `name`, in place of an earlier one if `name`
    /// has answered this slot before, else behind all others.
    pub fn insert(&mut self, name: Name, response: Response)
        requires
            old(self).wf(),
        ensures
            final(self).wf(),
            final(self).time == old(self).time,
            final(self).answers() == put(old(self).answers(), name@, response),
            answer_of(final(self).answers(), name@) == Some(response),
    {
        let ghost before = self.answers();
        match self.position(name.as_str()) {
            Some(j) => {
                self.responses.set(j, (name, response));
                assert(self.answers() =~= before.update(j as int, (name@, response)));
                assert(self.answers()[j as int].0 == name@);
                assert(before[j as int].0 == name@);
                assert(index_of(before, name@) == j);
            },
            None => {
                self.responses.push((name, response));
                assert(self.answers() =~= before.push((name@, response)));
                assert(self.answers()[before.len() as int].0 == name@);
            },
        }
    }
}

/// Equality of two string slices, as std's `==` on `str` decides it: the
/// result is true exactly when both hold the same characters in the same
/// order.
#[verifier::external_body]
pub(crate) fn same_text(a: &str, b: &str) -> (same: bool)
    ensures
        same == (a@ == b@),
{
    a == b
}

/// Whether every column of the poll is well formed.
pub fn is_poll_wf(data: &[PollColumn]) -> (ok: bool)
    ensures
        ok == poll_wf(data@),
{
    let mut i: usize = 0;
    while i < data.len()
        invariant
            i <= data@.len(),
            forall|k: int| 0 <= k < i ==> (#[trigger] data@[k]).wf(),
        decreases data@.len() - i,
    {
        if !data[i].is_wf() {
            return false;
        }
        i += 1;
    }
    true
}

} // verus!
