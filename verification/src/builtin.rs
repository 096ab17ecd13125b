//! The unary transcendental functions of the dialect.
use vstd::prelude::*;
use vstd::string::StringExecFns;
use crate::text::same_text;

verus! {

#[derive(Debug, Clone, Copy, PartialEq, Eq, Structural, Hash)]
pub enum Builtin {
    Sin,
    Cos,
    Tan,
    Exp,
    Log,
}

impl Builtin {
    /// The builtin that a method or function name of the dialect stands for.
    pub open spec fn mapping(name: Seq<char>) -> Option<Builtin> {
        if name == "sin"@ {
            Some(Builtin::Sin)
        } else if name == "cos"@ {
            Some(Builtin::Cos)
        } else if name == "tan"@ {
            Some(Builtin::Tan)
        } else if name == "exp"@ {
            Some(Builtin::Exp)
        } else if name == "ln"@ {
            Some(Builtin::Log)
        } else {
            None
        }
    }

    /// Looks a surface name up among the builtins.
    pub fn rust_mappings(name: &str) -> (builtin: Option<Self>)
        ensures
            builtin == Self::mapping(name@),
    {
        if same_text(name, "sin") {
            Some(Self::Sin)
        } else if same_text(name, "cos") {
            Some(Self::Cos)
        } else if same_text(name, "tan") {
            Some(Self::Tan)
        } else if same_text(name, "exp") {
            Some(Self::Exp)
        } else if same_text(name, "ln") {
            Some(Self::Log)
        } else {
            None
        }
    }

    /// The binding that applies the function to the value of its argument.
    pub open spec fn forward_text(
        self,
        result: Seq<char>,
        argument_value: Seq<char>,
    ) -> Seq<char> {
        match self {
            Builtin::Sin => "let "@ + result + " = "@ + argument_value + ".sin();"@,
            Builtin::Cos => "let "@ + result + " = "@ + argument_value + ".cos();"@,
            Builtin::Tan => "let "@ + result + " = "@ + argument_value + ".tan();"@,
            Builtin::Exp => "let "@ + result + " = "@ + argument_value + ".exp();"@,
            Builtin::Log => "let "@ + result + " = "@ + argument_value + ".ln();"@,
        }
    }

    /// The statement that adds to the adjoint of the argument the adjoint held in
    /// `propagate` times the derivative of the function.
    pub open spec fn reverse_text(
        self,
        propagate: Seq<char>,
        argument_value: Seq<char>,
        argument_adj: Seq<char>,
    ) -> Seq<char> {
        match self {
            Builtin::Sin => argument_adj + " += "@ + propagate + " * "@ + argument_value
                + ".cos();"@,
            Builtin::Cos => argument_adj + " -= "@ + propagate + " * "@ + argument_value
                + ".sin();"@,
            Builtin::Tan => argument_adj + " += "@ + propagate + " * "@ + argument_value
                + ".cos().powi(-2);"@,
            Builtin::Exp => argument_adj + " += "@ + propagate + " * "@ + argument_value
                + ".exp();"@,
            Builtin::Log => argument_adj + " += "@ + propagate + " / "@ + argument_value + ";"@,
        }
    }

    /// Emits the forward binding of the function.
    pub fn generate_forward(&self, result: &str, argument_value: &str) -> (code: String)
        ensures
            code@ == self.forward_text(result@, argument_value@),
    {
        match self {
            Self::Sin => {
                let mut text = String::from_str("let ");
                text.append(result);
                text.append(" = ");
                text.append(argument_value);
                text.append(".sin();");
                text
            },
            Self::Cos => {
                let mut text = String::from_str("let ");
                text.append(result);
                text.append(" = ");
                text.append(argument_value);
                text.append(".cos();");
                text
            },
            Self::Tan => {
                let mut text = String::from_str("let ");
                text.append(result);
                text.append(" = ");
                text.append(argument_value);
                text.append(".tan();");
                text
            },
            Self::Exp => {
                let mut text = String::from_str("let ");
                text.append(result);
                text.append(" = ");
                text.append(argument_value);
                text.append(".exp();");
                text
            },
            Self::Log => {
                let mut text = String::from_str("let ");
                text.append(result);
                text.append(" = ");
                text.append(argument_value);
                text.append(".ln();");
                text
            },
        }
    }

    /// Emits the adjoint update of the function.
    pub fn generate_reverse(
        &self,
        propagate: &str,
        argument_value: &str,
        argument_adj: &str,
    ) -> (code: String)
        ensures
            code@ == self.reverse_text(propagate@, argument_value@, argument_adj@),
    {
        match self {
            Self::Sin => {
                let mut text = String::from_str(argument_adj);
                text.append(" += ");
                text.append(propagate);
                text.append(" * ");
                text.append(argument_value);
                text.append(".cos();");
                text
            },
            Self::Cos => {
                let mut text = String::from_str(argument_adj);
                text.append(" -= ");
                text.append(propagate);
                text.append(" * ");
                text.append(argument_value);
                text.append(".sin();");
                text
            },
            Self::Tan => {
                let mut text = String::from_str(argument_adj);
                text.append(" += ");
                text.append(propagate);
                text.append(" * ");
                text.append(argument_value);
                text.append(".cos().powi(-2);");
                text
            },
            Self::Exp => {
                let mut text = String::from_str(argument_adj);
                text.append(" += ");
                text.append(propagate);
                text.append(" * ");
                text.append(argument_value);
                text.append(".exp();");
                text
            },
            Self::Log => {
                let mut text = String::from_str(argument_adj);
                text.append(" += ");
                text.append(propagate);
                text.append(" / ");
                text.append(argument_value);
                text.append(";");
                text
            },
        }
    }
}

} // verus!
