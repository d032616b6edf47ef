use vstd::prelude::*;

verus! {

/// The reasons for which a simulation cannot be set up.
#[derive(Debug, Clone, Copy, PartialEq, Eq, Structural)]
pub enum SimulationError {
    /// The initial table has no largest element (it is empty).
    NoMaximum,
    /// The initial table is empty.
    EmptyTable,
    /// `n^d` is not the length of the table.
    DimensionMismatch,
    /// The length of the table is no `d`-th power.
    BadTableSize,
    /// The picture is not square.
    NonSquareImage,
    /// The picture is square but has more pixels than a `u32` can count.
    ImageTooLarge,
    /// The picture holds more than 256 colours, more than a `u8` can number.
    TooManyColors,
}

impl SimulationError {
    /// The text of the message shown to the user for this error.
    pub open spec fn message_text(&self) -> Seq<char> {
        match self {
            SimulationError::NoMaximum => "Impossible de trouver le max du tableau initial"@,
            SimulationError::EmptyTable => "Le tableau initial est vide"@,
            SimulationError::DimensionMismatch => "Les dimensions ne correspondent pas à la taille du tableau"@,
            SimulationError::BadTableSize => "Mauvais dimensionnement du tableau"@,
            SimulationError::NonSquareImage => "La hauteur et la largeur de l'image doivent être égales"@,
            SimulationError::ImageTooLarge => "L'image est trop grande"@,
            SimulationError::TooManyColors => "Il ne peux pas y avoir plus de 256 couleurs de cellules différentes"@,
        }
    }

    /// The message shown to the user for this error.
    pub fn message(&self) -> (m: &'static str)
        ensures
            m@ == self.message_text(),
    {
        match self {
            SimulationError::NoMaximum => "Impossible de trouver le max du tableau initial",
            SimulationError::EmptyTable => "Le tableau initial est vide",
            SimulationError::DimensionMismatch => "Les dimensions ne correspondent pas à la taille du tableau",
            SimulationError::BadTableSize => "Mauvais dimensionnement du tableau",
            SimulationError::NonSquareImage => "La hauteur et la largeur de l'image doivent être égales",
            SimulationError::ImageTooLarge => "L'image est trop grande",
            SimulationError::TooManyColors => "Il ne peux pas y avoir plus de 256 couleurs de cellules différentes",
        }
    }
}

} // verus!
