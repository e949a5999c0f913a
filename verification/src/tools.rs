//! Drawing tools and brush shapes.
use vstd::prelude::*;

verus! {

/// A drawing tool.
#[derive(Clone, Copy, PartialEq, Eq, Debug, Structural)]
pub enum Tool {
    Pencil,
    Brush,
    Eraser,
    Line,
    Rect,
    Ellipse,
    Fill,
    Gradient,
    Select,
    Text,
    Eyedropper,
    Pan,
}

/// Every tool, in toolbar order.
pub const TOOLS: [Tool; 12] = [
    Tool::Pencil,
    Tool::Brush,
    Tool::Eraser,
    Tool::Line,
    Tool::Rect,
    Tool::Ellipse,
    Tool::Fill,
    Tool::Gradient,
    Tool::Select,
    Tool::Text,
    Tool::Eyedropper,
    Tool::Pan,
];

pub open spec fn spec_tool_name(t: Tool) -> Seq<char> {
    match t {
        Tool::Pencil => "Карандаш"@,
        Tool::Brush => "Кисть"@,
        Tool::Eraser => "Ластик"@,
        Tool::Line => "Линия"@,
        Tool::Rect => "Прямоугольник"@,
        Tool::Ellipse => "Эллипс"@,
        Tool::Fill => "Заливка"@,
        Tool::Gradient => "Градиент"@,
        Tool::Select => "Выделение"@,
        Tool::Text => "Текст"@,
        Tool::Eyedropper => "Пипетка"@,
        Tool::Pan => "Рука"@,
    }
}

pub open spec fn spec_tool_hint(t: Tool) -> Seq<char> {
    match t {
        Tool::Pencil => "Тонкая линия, сглаживание"@,
        Tool::Brush => "Мягкая кисть с нажимом"@,
        Tool::Eraser => "Стирает до прозрачности"@,
        Tool::Line => "Прямая по нажатию и протягиванию"@,
        Tool::Rect => "Прямоугольник: рамка или заливка"@,
        Tool::Ellipse => "Эллипс: рамка или заливка"@,
        Tool::Fill => "Заливка области с допуском"@,
        Tool::Gradient => "Линейный градиент от первого цвета ко второму"@,
        Tool::Select => "Рамка выделения: копировать, вырезать, вставить"@,
        Tool::Text => "Клик по холсту — печатать, Enter — нарисовать"@,
        Tool::Eyedropper => "Взять цвет из холста"@,
        Tool::Pan => "Перемещение холста"@,
    }
}

impl Tool {
    /// The tool's name.
    pub fn name(self) -> (r: &'static str)
        ensures
            r@ == spec_tool_name(self),
    {
        match self {
            Tool::Pencil => "Карандаш",
            Tool::Brush => "Кисть",
            Tool::Eraser => "Ластик",
            Tool::Line => "Линия",
            Tool::Rect => "Прямоугольник",
            Tool::Ellipse => "Эллипс",
            Tool::Fill => "Заливка",
            Tool::Gradient => "Градиент",
            Tool::Select => "Выделение",
            Tool::Text => "Текст",
            Tool::Eyedropper => "Пипетка",
            Tool::Pan => "Рука",
        }
    }

    /// A short hint for the parameter panel.
    pub fn hint(self) -> (r: &'static str)
        ensures
            r@ == spec_tool_hint(self),
    {
        match self {
            Tool::Pencil => "Тонкая линия, сглаживание",
            Tool::Brush => "Мягкая кисть с нажимом",
            Tool::Eraser => "Стирает до прозрачности",
            Tool::Line => "Прямая по нажатию и протягиванию",
            Tool::Rect => "Прямоугольник: рамка или заливка",
            Tool::Ellipse => "Эллипс: рамка или заливка",
            Tool::Fill => "Заливка области с допуском",
            Tool::Gradient => "Линейный градиент от первого цвета ко второму",
            Tool::Select => "Рамка выделения: копировать, вырезать, вставить",
            Tool::Text => "Клик по холсту — печатать, Enter — нарисовать",
            Tool::Eyedropper => "Взять цвет из холста",
            Tool::Pan => "Перемещение холста",
        }
    }

    /// The tool paints a continuous stroke (pencil, brush and eraser).
    pub fn is_freehand(self) -> (r: bool)
        ensures
            r == (self == Tool::Pencil || self == Tool::Brush || self == Tool::Eraser),
    {
        match self {
            Tool::Pencil | Tool::Brush | Tool::Eraser => true,
            _ => false,
        }
    }

    /// The selection tool moves a frame instead of painting.
    pub fn is_selection(self) -> (r: bool)
        ensures
            r == (self == Tool::Select),
    {
        self == Tool::Select
    }

    /// The tool uses the current colour.
    pub fn needs_color(self) -> (r: bool)
        ensures
            r == !(self == Tool::Eraser || self == Tool::Eyedropper || self == Tool::Pan || self
                == Tool::Select),
    {
        match self {
            Tool::Eraser | Tool::Eyedropper | Tool::Pan | Tool::Select => false,
            _ => true,
        }
    }
}

/// The footprint of a brush dab.
#[derive(Clone, Copy, PartialEq, Eq, Debug, Structural)]
pub enum BrushShape {
    Round,
    Ellipse,
    Square,
}

pub open spec fn spec_shape_name(s: BrushShape) -> Seq<char> {
    match s {
        BrushShape::Round => "Круг"@,
        BrushShape::Ellipse => "Эллипс"@,
        BrushShape::Square => "Квадрат"@,
    }
}

pub open spec fn spec_shape_next(s: BrushShape) -> BrushShape {
    match s {
        BrushShape::Round => BrushShape::Ellipse,
        BrushShape::Ellipse => BrushShape::Square,
        BrushShape::Square => BrushShape::Round,
    }
}

impl BrushShape {
    /// The shape's name.
    pub fn name(self) -> (r: &'static str)
        ensures
            r@ == spec_shape_name(self),
    {
        match self {
            BrushShape::Round => "Круг",
            BrushShape::Ellipse => "Эллипс",
            BrushShape::Square => "Квадрат",
        }
    }

    /// The next shape in the cycle switched by one button in the panel.
    pub fn next(self) -> (r: Self)
        ensures
            r == spec_shape_next(self),
    {
        match self {
            BrushShape::Round => BrushShape::Ellipse,
            BrushShape::Ellipse => BrushShape::Square,
            BrushShape::Square => BrushShape::Round,
        }
    }
}

/// Switching the shape three times comes back to the start, passing every
/// shape once.
pub proof fn lemma_shape_cycle(s: BrushShape)
    ensures
        spec_shape_next(spec_shape_next(spec_shape_next(s))) == s,
        spec_shape_next(s) != s,
        spec_shape_next(spec_shape_next(s)) != s,
{
}

} // verus!
