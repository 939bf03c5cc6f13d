use vstd::prelude::*;

verus! {

/// The response statuses the server answers with.
#[derive(Clone, Copy, Debug, PartialEq, Eq, Structural)]
pub enum StatusCode {
    Okay,
    NotFound,
}

impl StatusCode {
    /// The numeric status.
    pub open spec fn spec_value(self) -> int {
        match self {
            StatusCode::Okay => 200,
            StatusCode::NotFound => 404,
        }
    }

    /// The status line text: the numeric status with its reason phrase.
    pub open spec fn spec_desc(self) -> Seq<char> {
        match self {
            StatusCode::Okay => seq!['2', '0', '0', ' ', 'O', 'K'],
            StatusCode::NotFound => seq![
                '4',
                '0',
                '4',
                ' ',
                'N',
                'o',
                't',
                ' ',
                'F',
                'o',
                'u',
                'n',
                'd',
            ],
        }
    }

    /// The numeric status.
    pub fn get_value(&self) -> (r: usize)
        ensures
            r == self.spec_value(),
    {
        match self {
            StatusCode::Okay => 200,
            StatusCode::NotFound => 404,
        }
    }

    /// The status line text.
    pub fn get_desc(&self) -> (r: &str)
        ensures
            r@ == self.spec_desc(),
    {
        let r: &str = match self {
            StatusCode::Okay => "200 OK",
            StatusCode::NotFound => "404 Not Found",
        };
        proof {
            reveal_strlit("200 OK");
            reveal_strlit("404 Not Found");
            assert(r@ =~= self.spec_desc());
        }
        r
    }
}

} // verus!
