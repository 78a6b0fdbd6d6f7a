//! The error that every operation reports, with its exit code.
use vstd::prelude::*;
use crate::json;
use crate::json::{Json, JsonValue};
use crate::text;
use crate::text::Text;

verus! {

#[derive(Debug)]
pub struct JavelinError {
    pub exit_code: u8,
    pub code: &'static str,
    pub message: String,
    pub details: Json,
    pub recovery: Vec<String>,
}

/// The mathematical value of a [`JavelinError`].
#[verifier::ext_equal]
pub struct Failure {
    pub exit_code: u8,
    pub code: Text,
    pub message: Text,
    pub details: JsonValue,
    pub recovery: Seq<Text>,
}

impl View for JavelinError {
    type V = Failure;

    open spec fn view(&self) -> Failure {
        Failure {
            exit_code: self.exit_code,
            code: self.code@,
            message: self.message@,
            details: self.details@,
            recovery: self.recovery.deep_view(),
        }
    }
}

pub type Result<T> = std::result::Result<T, JavelinError>;

impl Failure {
    /// A failure with nothing but its code and message.
    pub open spec fn plain(exit_code: u8, code: Text, message: Text) -> Failure {
        Failure {
            exit_code,
            code,
            message,
            details: JsonValue::object(),
            recovery: Seq::empty(),
        }
    }

    pub open spec fn invalid(message: Text) -> Failure {
        Failure::plain(2, "INVALID_ARGUMENT"@, message)
    }

    pub open spec fn no_world(path: Text) -> Failure {
        Failure {
            recovery: seq!["javelin init"@],
            ..Failure::plain(3, "NO_WORLD"@, "no Javelin World found from "@ + path)
        }
    }

    pub open spec fn conflict(message: Text) -> Failure {
        Failure::plain(4, "CONFLICT"@, message)
    }

    pub open spec fn verification(message: Text) -> Failure {
        Failure::plain(5, "VERIFICATION_FAILED"@, message)
    }

    pub open spec fn stale(message: Text) -> Failure {
        Failure::plain(6, "STALE_STATE"@, message)
    }

    pub open spec fn corruption(message: Text) -> Failure {
        Failure::plain(7, "STORAGE_CORRUPTION"@, message)
    }

    pub open spec fn busy(message: Text) -> Failure {
        Failure::plain(8, "RESOURCE_BUSY"@, message)
    }

    pub open spec fn unsupported(message: Text) -> Failure {
        Failure::plain(9, "UNSUPPORTED_FEATURE"@, message)
    }

    pub open spec fn policy(message: Text) -> Failure {
        Failure::plain(10, "POLICY_REJECTED"@, message)
    }
}

impl JavelinError {
    pub fn new(exit_code: u8, code: &'static str, message: String) -> (r: Self)
        ensures
            r@ == Failure::plain(exit_code, code@, message@),
    {
        let recovery: Vec<String> = Vec::new();
        assert(recovery.deep_view() =~= Seq::empty());
        JavelinError { exit_code, code, message, details: Json::empty(), recovery }
    }

    /// The same error with other details.
    pub fn details(self, details: Json) -> (r: Self)
        ensures
            r@ == (Failure { details: details@, ..self@ }),
    {
        JavelinError {
            exit_code: self.exit_code,
            code: self.code,
            message: self.message,
            details,
            recovery: self.recovery,
        }
    }

    /// The same error with other recovery commands.
    pub fn recovery(self, recovery: Vec<String>) -> (r: Self)
        ensures
            r@ == (Failure { recovery: recovery.deep_view(), ..self@ }),
    {
        JavelinError {
            exit_code: self.exit_code,
            code: self.code,
            message: self.message,
            details: self.details,
            recovery,
        }
    }

    pub fn invalid(message: String) -> (r: Self)
        ensures
            r@ == Failure::invalid(message@),
    {
        Self::new(2, "INVALID_ARGUMENT", message)
    }

    pub fn no_world(path: &str) -> (r: Self)
        ensures
            r@ == Failure::no_world(path@),
    {
        let mut recovery: Vec<String> = Vec::new();
        recovery.push("javelin init".to_owned());
        assert(recovery.deep_view() =~= seq!["javelin init"@]);
        Self::new(3, "NO_WORLD", text::concat2("no Javelin World found from ", path)).recovery(
            recovery,
        )
    }

    pub fn conflict(message: String) -> (r: Self)
        ensures
            r@ == Failure::conflict(message@),
    {
        Self::new(4, "CONFLICT", message)
    }

    pub fn verification(message: String) -> (r: Self)
        ensures
            r@ == Failure::verification(message@),
    {
        Self::new(5, "VERIFICATION_FAILED", message)
    }

    pub fn stale(message: String) -> (r: Self)
        ensures
            r@ == Failure::stale(message@),
    {
        Self::new(6, "STALE_STATE", message)
    }

    pub fn corruption(message: String) -> (r: Self)
        ensures
            r@ == Failure::corruption(message@),
    {
        Self::new(7, "STORAGE_CORRUPTION", message)
    }

    pub fn busy(message: String) -> (r: Self)
        ensures
            r@ == Failure::busy(message@),
    {
        Self::new(8, "RESOURCE_BUSY", message)
    }

    pub fn unsupported(message: String) -> (r: Self)
        ensures
            r@ == Failure::unsupported(message@),
    {
        Self::new(9, "UNSUPPORTED_FEATURE", message)
    }

    pub fn policy(message: String) -> (r: Self)
        ensures
            r@ == Failure::policy(message@),
    {
        Self::new(10, "POLICY_REJECTED", message)
    }

    /// The report that a command prints for the error.
    pub fn json(self) -> (r: Json)
        ensures
            r@ == JsonValue::object().field("schema_version"@, JsonValue::Number("1"@)).field(
                "ok"@,
                JsonValue::Bool(false),
            ).field(
                "error"@,
                JsonValue::object().field("code"@, JsonValue::Text(self@.code)).field(
                    "message"@,
                    JsonValue::Text(self@.message),
                ).field("details"@, self@.details).field(
                    "recovery"@,
                    JsonValue::Array(json::text_values(self@.recovery)),
                ),
            ),
    {
        let recovery = Json::texts(&self.recovery);
        let error = Json::empty().with("code", Json::text(self.code)).with(
            "message",
            Json::Text(self.message),
        ).with("details", self.details).with("recovery", recovery);
        Json::empty().with("schema_version", Json::Number("1".to_owned())).with(
            "ok",
            Json::Bool(false),
        ).with("error", error)
    }
}

/// The failure of an outside step, whose cause is given as text.
pub open spec fn caused(exit_code: u8, code: Text, message: Text, cause: Text) -> Failure {
    Failure {
        details: JsonValue::object().field("cause"@, JsonValue::Text(cause)),
        ..Failure::plain(exit_code, code, message)
    }
}

pub trait Context<T>: Sized {
    /// What the step gave, or the failure that it ended in.
    spec fn outcome(self) -> std::result::Result<T, Text>;

    fn jctx(self, exit_code: u8, code: &'static str, message: String) -> (r: Result<T>)
        ensures
            match self.outcome() {
                Ok(value) => r == Ok::<T, JavelinError>(value),
                Err(cause) => r is Err && r->Err_0@ == caused(exit_code, code@, message@, cause),
            },
    ;
}

impl<T> Context<T> for std::result::Result<T, String> {
    open spec fn outcome(self) -> std::result::Result<T, Text> {
        match self {
            Ok(value) => Ok(value),
            Err(cause) => Err(cause@),
        }
    }

    fn jctx(self, exit_code: u8, code: &'static str, message: String) -> (r: Result<T>) {
        match self {
            Ok(value) => Ok(value),
            Err(cause) => Err(
                JavelinError::new(exit_code, code, message).details(
                    Json::empty().with("cause", Json::Text(cause)),
                ),
            ),
        }
    }
}

/// Each kind of failure has an exit code of its own, from 2 to 10, by which a
/// caller tells them apart.
pub proof fn law_exit_codes_tell_failures_apart(message: Text)
    ensures
        Failure::invalid(message).exit_code == 2,
        Failure::no_world(message).exit_code == 3,
        Failure::conflict(message).exit_code == 4,
        Failure::verification(message).exit_code == 5,
        Failure::stale(message).exit_code == 6,
        Failure::corruption(message).exit_code == 7,
        Failure::busy(message).exit_code == 8,
        Failure::unsupported(message).exit_code == 9,
        Failure::policy(message).exit_code == 10,
        Failure::invalid(message).message == message,
        Failure::conflict(message).message == message,
        Failure::verification(message).message == message,
        Failure::stale(message).message == message,
        Failure::corruption(message).message == message,
        Failure::busy(message).message == message,
        Failure::unsupported(message).message == message,
        Failure::policy(message).message == message,
{
}

} // verus!
