//! The binary operators of the dialect.
use vstd::prelude::*;
use vstd::string::StringExecFns;

verus! {

#[derive(Debug, Clone, Copy, PartialEq, Eq, Structural, Hash)]
pub enum BinaryOperation {
    Add,
    Sub,
    Mul,
    Div,
    /// A power with an integer exponent.
    PowI,
    /// A power with a floating-point exponent.
    PowF,
}

impl BinaryOperation {
    /// The binding that computes the operation from the values of its operands.
    pub open spec fn forward_text(
        self,
        result: Seq<char>,
        left_value: Seq<char>,
        right_value: Seq<char>,
    ) -> Seq<char> {
        match self {
            BinaryOperation::Add => "let "@ + result + " = "@ + left_value + " + "@ + right_value
                + ";"@,
            BinaryOperation::Sub => "let "@ + result + " = "@ + left_value + " - "@ + right_value
                + ";"@,
            BinaryOperation::Mul => "let "@ + result + " = "@ + left_value + " * "@ + right_value
                + ";"@,
            BinaryOperation::Div => "let "@ + result + " = "@ + left_value + " / "@ + right_value
                + ";"@,
            BinaryOperation::PowI => "let "@ + result + " = "@ + left_value + ".powi("@
                + right_value + ");"@,
            BinaryOperation::PowF => "let "@ + result + " = "@ + left_value + ".powf("@
                + right_value + " as Float);"@,
        }
    }

    /// The statements that add to the adjoints of the operands the adjoint held in
    /// `propagate`, each times the local partial derivative.  The exponent of an
    /// integer power is no number of the model and receives nothing; the exponent of
    /// a floating-point power receives its share, the power times the logarithm of
    /// the base.
    pub open spec fn reverse_text(
        self,
        propagate: Seq<char>,
        left_value: Seq<char>,
        right_value: Seq<char>,
        left_adj: Seq<char>,
        right_adj: Seq<char>,
    ) -> Seq<char> {
        match self {
            BinaryOperation::Add => left_adj + " += "@ + propagate + "; "@ + right_adj + " += "@
                + propagate + ";"@,
            BinaryOperation::Sub => left_adj + " += "@ + propagate + "; "@ + right_adj + " -= "@
                + propagate + ";"@,
            BinaryOperation::Mul => left_adj + " += "@ + right_value + " * "@ + propagate + "; "@
                + right_adj + " += "@ + left_value + " * "@ + propagate + ";"@,
            BinaryOperation::Div => left_adj + " += "@ + propagate + " / "@ + right_value + "; "@
                + right_adj + " -= "@ + propagate + " * "@ + left_value + " / ("@ + right_value
                + " * "@ + right_value + ");"@,
            BinaryOperation::PowI => left_adj + " += "@ + propagate + " * "@ + right_value
                + " as Float * "@ + left_value + ".powi("@ + right_value + " - 1);"@,
            BinaryOperation::PowF => left_adj + " += "@ + propagate + " * "@ + right_value
                + " * "@ + left_value + ".powf("@ + right_value + " - 1.0 as Float); "@
                + right_adj + " += "@ + propagate + " * "@ + left_value + ".powf("@ + right_value
                + " as Float) * "@ + left_value + ".ln();"@,
        }
    }

    /// Emits the forward binding of the operation.
    pub fn generate_forward(
        &self,
        result: &str,
        left_value: &str,
        right_value: &str,
    ) -> (code: String)
        ensures
            code@ == self.forward_text(result@, left_value@, right_value@),
    {
        match self {
            Self::Add => {
                let mut text = String::from_str("let ");
                text.append(result);
                text.append(" = ");
                text.append(left_value);
                text.append(" + ");
                text.append(right_value);
                text.append(";");
                text
            },
            Self::Sub => {
                let mut text = String::from_str("let ");
                text.append(result);
                text.append(" = ");
                text.append(left_value);
                text.append(" - ");
                text.append(right_value);
                text.append(";");
                text
            },
            Self::Mul => {
                let mut text = String::from_str("let ");
                text.append(result);
                text.append(" = ");
                text.append(left_value);
                text.append(" * ");
                text.append(right_value);
                text.append(";");
                text
            },
            Self::Div => {
                let mut text = String::from_str("let ");
                text.append(result);
                text.append(" = ");
                text.append(left_value);
                text.append(" / ");
                text.append(right_value);
                text.append(";");
                text
            },
            Self::PowI => {
                let mut text = String::from_str("let ");
                text.append(result);
                text.append(" = ");
                text.append(left_value);
                text.append(".powi(");
                text.append(right_value);
                text.append(");");
                text
            },
            Self::PowF => {
                let mut text = String::from_str("let ");
                text.append(result);
                text.append(" = ");
                text.append(left_value);
                text.append(".powf(");
                text.append(right_value);
                text.append(" as Float);");
                text
            },
        }
    }

    /// Emits the adjoint updates of the operation.
    pub fn generate_reverse(
        &self,
        propagate: &str,
        left_value: &str,
        right_value: &str,
        left_adj: &str,
        right_adj: &str,
    ) -> (code: String)
        ensures
            code@ == self.reverse_text(
                propagate@,
                left_value@,
                right_value@,
                left_adj@,
                right_adj@,
            ),
    {
        match self {
            Self::Add => {
                let mut text = String::from_str(left_adj);
                text.append(" += ");
                text.append(propagate);
                text.append("; ");
                text.append(right_adj);
                text.append(" += ");
                text.append(propagate);
                text.append(";");
                text
            },
            Self::Sub => {
                let mut text = String::from_str(left_adj);
                text.append(" += ");
                text.append(propagate);
                text.append("; ");
                text.append(right_adj);
                text.append(" -= ");
                text.append(propagate);
                text.append(";");
                text
            },
            Self::Mul => {
                let mut text = String::from_str(left_adj);
                text.append(" += ");
                text.append(right_value);
                text.append(" * ");
                text.append(propagate);
                text.append("; ");
                text.append(right_adj);
                text.append(" += ");
                text.append(left_value);
                text.append(" * ");
                text.append(propagate);
                text.append(";");
                text
            },
            Self::Div => {
                let mut text = String::from_str(left_adj);
                text.append(" += ");
                text.append(propagate);
                text.append(" / ");
                text.append(right_value);
                text.append("; ");
                text.append(right_adj);
                text.append(" -= ");
                text.append(propagate);
                text.append(" * ");
                text.append(left_value);
                text.append(" / (");
                text.append(right_value);
                text.append(" * ");
                text.append(right_value);
                text.append(");");
                text
            },
            Self::PowI => {
                let mut text = String::from_str(left_adj);
                text.append(" += ");
                text.append(propagate);
                text.append(" * ");
                text.append(right_value);
                text.append(" as Float * ");
                text.append(left_value);
                text.append(".powi(");
                text.append(right_value);
                text.append(" - 1);");
                text
            },
            Self::PowF => {
                let mut text = String::from_str(left_adj);
                text.append(" += ");
                text.append(propagate);
                text.append(" * ");
                text.append(right_value);
                text.append(" * ");
                text.append(left_value);
                text.append(".powf(");
                text.append(right_value);
                text.append(" - 1.0 as Float); ");
                text.append(right_adj);
                text.append(" += ");
                text.append(propagate);
                text.append(" * ");
                text.append(left_value);
                text.append(".powf(");
                text.append(right_value);
                text.append(" as Float) * ");
                text.append(left_value);
                text.append(".ln();");
                text
            },
        }
    }
}

} // verus!
