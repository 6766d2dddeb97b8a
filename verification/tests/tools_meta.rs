//! The tool descriptors carry their registration metadata.

use flowgrid::tools::{
    D8FlowAccumulation, DepthInSink, DownslopeDistanceToStream, LidarTINGridding, Not, Power,
    RemoveOffTerrainObjects, StandardDeviationFilter,
};

#[test]
fn tool_names() {
    assert_eq!(D8FlowAccumulation::new().get_tool_name(), "D8FlowAccumulation");
    assert_eq!(DepthInSink::new().get_tool_name(), "DepthInSink");
    assert_eq!(
        DownslopeDistanceToStream::new().get_tool_name(),
        "DownslopeDistanceToStream"
    );
    assert_eq!(StandardDeviationFilter::new().get_tool_name(), "StandardDeviationFilter");
    assert_eq!(LidarTINGridding::new().get_tool_name(), "LidarTINGridding");
    assert_eq!(Not::new().get_tool_name(), "Not");
    assert_eq!(Power::new().get_tool_name(), "Power");
    assert_eq!(RemoveOffTerrainObjects::new().get_tool_name(), "RemoveOffTerrainObjects");
}

#[test]
fn tool_toolboxes() {
    assert_eq!(D8FlowAccumulation::new().get_toolbox(), "Hydrological Analysis");
    assert_eq!(DepthInSink::new().get_toolbox(), "Hydrological Analysis");
    assert_eq!(StandardDeviationFilter::new().get_toolbox(), "Image Processing Tools/Filters");
}

#[test]
fn tool_parameters_are_json() {
    // the parameter tables parse as JSON objects holding a parameter array
    for params in [
        D8FlowAccumulation::new().get_tool_parameters(),
        DepthInSink::new().get_tool_parameters(),
        DownslopeDistanceToStream::new().get_tool_parameters(),
        StandardDeviationFilter::new().get_tool_parameters(),
        LidarTINGridding::new().get_tool_parameters(),
        Not::new().get_tool_parameters(),
        Power::new().get_tool_parameters(),
        RemoveOffTerrainObjects::new().get_tool_parameters(),
    ] {
        let v: serde_json::Value = serde_json::from_str(&params).unwrap();
        assert!(v["parameters"].is_array());
    }
}

#[test]
fn tool_descriptions_mention_their_subject() {
    assert!(D8FlowAccumulation::new().get_tool_description().contains("D8"));
    assert!(DepthInSink::new().get_tool_description().contains("sink"));
    assert!(Power::new().get_tool_description().contains("Raises"));
}

#[test]
fn example_usage_names_the_tool() {
    assert!(D8FlowAccumulation::new().get_example_usage().contains("D8FlowAccumulation"));
    assert!(DepthInSink::new().get_example_usage().contains("DepthInSink"));
}
