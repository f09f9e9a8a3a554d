use vstd::prelude::*;
use vstd::string::StringExecFns;

verus! {

#[verifier::external_type_specification]
#[verifier::external_body]
pub struct ExIoError(std::io::Error);

/// The errors of the database.
#[derive(Debug)]
pub enum DbError {
    /// A key was empty.
    EmptyKey,
    /// An I/O operation failed.
    Io(std::io::Error),
    /// Stored data was malformed, or a record could not be written.
    Corruption(&'static str),
}

/// Results of the database's operations.
pub type Result<T> = std::result::Result<T, DbError>;

impl DbError {
    /// The error's message: `"key must not be empty"`, `"io error: "`
    /// followed by the I/O error's own text, or `"message: "` followed by
    /// the corruption's description.
    pub fn to_string(&self) -> (r: String)
        ensures
            self is EmptyKey ==> r@ == "key must not be empty"@,
            self matches DbError::Corruption(m) ==> r@ == "message: "@ + m@,
            self matches DbError::Io(err) ==> exists|detail: String|
                vstd::string::to_string_from_display_ensures::<std::io::Error>(&err, detail)
                    && r@ == "io error: "@ + detail@,
    {
        match self {
            DbError::EmptyKey => "key must not be empty".to_owned(),
            DbError::Io(err) => {
                let mut text = "io error: ".to_owned();
                let detail = err.to_string();
                text.append(detail.as_str());
                assert(vstd::string::to_string_from_display_ensures::<std::io::Error>(err, detail)
                    && text@ == "io error: "@ + detail@);
                text
            },
            DbError::Corruption(message) => {
                let mut text = "message: ".to_owned();
                text.append(message);
                text
            },
        }
    }
}

impl From<std::io::Error> for DbError {
    fn from(value: std::io::Error) -> (r: Self) {
        DbError::Io(value)
    }
}

impl vstd::std_specs::convert::FromSpecImpl<std::io::Error> for DbError {
    open spec fn obeys_from_spec() -> bool {
        true
    }

    open spec fn from_spec(v: std::io::Error) -> Self {
        DbError::Io(v)
    }
}

} // verus!
