use render3d::measure::{MeasureStage, MeasureTool};

#[test]
fn measuring_keeps_the_last_segment() {
    let mut m = MeasureTool::new();
    m.click([1, 2, 3]);
    assert!(m.points.is_empty());
    m.toggle();
    assert_eq!(m.stage(), MeasureStage::FirstPoint);
    m.click([1, 0, 0]);
    assert_eq!(m.stage(), MeasureStage::SecondPoint);
    m.click([2, 0, 0]);
    assert_eq!(m.stage(), MeasureStage::Distance);
    m.click([3, 0, 0]);
    assert_eq!(m.points, vec![[3, 0, 0]]);
    m.toggle();
    assert!(!m.active);
    assert!(m.points.is_empty());
}
